//! The projector: a table of chosen columns, in the chosen order.

use vstd::prelude::*;
use crate::bytes::{bytes_eq, copy_bytes, views};
use crate::error::{Error, ErrorView};
use crate::table::{Column, ColumnView, Table, TableView};

verus! {

/// The place of the first column from `from` on that is called `name`,
/// or the number of columns when there is none.
pub open spec fn column_index(columns: Seq<ColumnView>, name: Seq<u8>, from: int) -> int
    decreases columns.len() - from,
{
    if from < 0 || from >= columns.len() {
        columns.len() as int
    } else if columns[from].name == name {
        from
    } else {
        column_index(columns, name, from + 1)
    }
}

/// The first name from `from` on that no column has, or the number of
/// names when every one is the name of a column.
pub open spec fn first_unknown(columns: Seq<ColumnView>, names: Seq<Seq<u8>>, from: int) -> int
    decreases names.len() - from,
{
    if from < 0 || from >= names.len() {
        names.len() as int
    } else if column_index(columns, names[from], 0) >= columns.len() {
        from
    } else {
        first_unknown(columns, names, from + 1)
    }
}

/// What projecting yields: for each name the column of that name, in
/// the order of the names and with the same rows; a name that occurs
/// twice gives its column twice.  A name that no column has is an
/// error, the first such being reported.
pub open spec fn project_spec(t: TableView, names: Seq<Seq<u8>>) -> Result<TableView, ErrorView> {
    let miss = first_unknown(t.columns, names, 0);
    if miss < names.len() {
        Err(ErrorView::UnknownColumn { name: names[miss] })
    } else {
        Ok(
            TableView {
                rows: t.rows,
                columns: Seq::new(
                    names.len(),
                    |k: int| t.columns[column_index(t.columns, names[k], 0)],
                ),
            },
        )
    }
}

/// `column_index` is in range, the column at it has the name unless it
/// is the number of columns, and no earlier column has the name.
pub proof fn lemma_column_index(columns: Seq<ColumnView>, name: Seq<u8>, from: int)
    requires
        0 <= from <= columns.len(),
    ensures
        from <= column_index(columns, name, from) <= columns.len(),
        column_index(columns, name, from) < columns.len() ==> columns[column_index(
            columns,
            name,
            from,
        )].name == name,
        forall|k: int| from <= k < column_index(columns, name, from) ==> columns[k].name != name,
    decreases columns.len() - from,
{
    if from < columns.len() && columns[from].name != name {
        lemma_column_index(columns, name, from + 1);
    }
}

/// `first_unknown` is in range, every name before it is the name of a
/// column, and the name at it, if any, is not.
pub proof fn lemma_first_unknown(columns: Seq<ColumnView>, names: Seq<Seq<u8>>, from: int)
    requires
        0 <= from <= names.len(),
    ensures
        from <= first_unknown(columns, names, from) <= names.len(),
        first_unknown(columns, names, from) < names.len() ==> column_index(
            columns,
            names[first_unknown(columns, names, from)],
            0,
        ) >= columns.len(),
        forall|k: int|
            from <= k < first_unknown(columns, names, from) ==> column_index(columns, names[k], 0)
                < columns.len(),
    decreases names.len() - from,
{
    if from < names.len() && column_index(columns, names[from], 0) < columns.len() {
        lemma_first_unknown(columns, names, from + 1);
    }
}

/// The place of the first column called `name`, or the number of
/// columns.
pub fn find_column(table: &Table, name: &[u8]) -> (i: usize)
    ensures
        i == column_index(table@.columns, name@, 0),
        i <= table@.columns.len(),
{
    let mut i: usize = 0;
    while i < table.columns.len() && !bytes_eq(table.columns[i].name.as_slice(), name)
        invariant
            i <= table.columns@.len(),
            column_index(table@.columns, name@, 0) == column_index(table@.columns, name@, i as int),
        decreases table.columns@.len() - i,
    {
        proof {
            assert(table@.columns[i as int].name == table.columns@[i as int].name@);
        }
        i += 1;
    }
    proof {
        if i < table.columns@.len() {
            assert(table@.columns[i as int].name == table.columns@[i as int].name@);
        }
    }
    i
}

/// Projects `table` onto the columns called `names`.
///
/// The new table has, for each name in order, a copy of the first
/// column of that name, and the same number of rows.  When a name is
/// not the name of a column, the first such name is reported and no
/// table is made.
pub fn project(table: &Table, names: &Vec<Vec<u8>>) -> (r: Result<Table, Error>)
    requires
        table.wf(),
    ensures
        match r {
            Ok(t) => t.wf() && project_spec(table@, views(names@)) == Ok::<TableView, ErrorView>(
                t@,
            ),
            Err(e) => project_spec(table@, views(names@)) == Err::<TableView, ErrorView>(e@),
        },
{
    let ghost nv = views(names@);
    let mut columns: Vec<Column> = Vec::new();
    let mut k: usize = 0;
    while k < names.len()
        invariant
            k <= names@.len(),
            nv == views(names@),
            table.wf(),
            columns@.len() == k,
            first_unknown(table@.columns, nv, 0) == first_unknown(table@.columns, nv, k as int),
            forall|q: int|
                0 <= q < k ==> (#[trigger] columns@[q]).wf() && columns@[q].valid@.len()
                    == table.rows && columns@[q]@ == table@.columns[column_index(
                    table@.columns,
                    nv[q],
                    0,
                )],
        decreases names@.len() - k,
    {
        proof {
            assert(nv[k as int] == names@[k as int]@);
        }
        let i = find_column(table, names[k].as_slice());
        if i >= table.columns.len() {
            return Err(Error::UnknownColumn { name: copy_bytes(names[k].as_slice()) });
        }
        let c = table.columns[i].duplicate();
        proof {
            assert(table@.columns[i as int] == table.columns@[i as int]@);
            assert(c@.cells.len() == c.valid@.len());
            assert(table.columns@[i as int]@.cells.len() == table.columns@[i as int].valid@.len());
        }
        columns.push(c);
        k += 1;
    }
    let out = Table { columns, rows: table.rows };
    proof {
        let want = project_spec(table@, nv)->Ok_0;
        assert(out@.columns =~= want.columns);
    }
    Ok(out)
}

/// Projecting keeps the number of rows and the row-count invariant,
/// and gives one column for each name.
pub proof fn lemma_project_keeps_rows(t: TableView, names: Seq<Seq<u8>>)
    requires
        t.wf(),
    ensures
        project_spec(t, names) matches Ok(r) ==> r.rows == t.rows && r.columns.len()
            == names.len() && r.wf() && forall|k: int|
            0 <= k < names.len() ==> (#[trigger] r.columns[k]).name == names[k],
{
    lemma_first_unknown(t.columns, names, 0);
    if project_spec(t, names) is Ok {
        let r = project_spec(t, names)->Ok_0;
        assert forall|k: int| 0 <= k < names.len() implies (#[trigger] r.columns[k]).cells.len()
            == t.rows && r.columns[k].name == names[k] by {
            lemma_column_index(t.columns, names[k], 0);
        }
    }
}

/// Whether `a` and `b` hold the same columns, each name once, in any
/// order.
pub open spec fn same_columns(a: Seq<ColumnView>, b: Seq<ColumnView>) -> bool {
    &&& forall|i: int, j: int| 0 <= i < j < a.len() ==> (#[trigger] a[i]).name != (#[trigger] a[j]).name
    &&& forall|i: int, j: int| 0 <= i < j < b.len() ==> (#[trigger] b[i]).name != (#[trigger] b[j]).name
    &&& forall|i: int| 0 <= i < a.len() ==> b.contains(#[trigger] a[i])
    &&& forall|i: int| 0 <= i < b.len() ==> a.contains(#[trigger] b[i])
}

/// The order of the result is the order of the names, whatever the
/// order of the columns in the table: two tables that hold the same
/// columns, each name once, project alike.
pub proof fn lemma_project_order_independent(a: TableView, b: TableView, names: Seq<Seq<u8>>)
    requires
        a.rows == b.rows,
        same_columns(a.columns, b.columns),
    ensures
        project_spec(a, names) == project_spec(b, names),
{
    assert forall|k: int| 0 <= k < names.len() implies (column_index(a.columns, names[k], 0)
        < a.columns.len()) == (column_index(b.columns, names[k], 0) < b.columns.len()) && (
    column_index(a.columns, names[k], 0) < a.columns.len() ==> a.columns[column_index(
        a.columns,
        names[k],
        0,
    )] == b.columns[column_index(b.columns, names[k], 0)]) by {
        lemma_same_column(a.columns, b.columns, names[k]);
        lemma_same_column(b.columns, a.columns, names[k]);
    }
    lemma_same_first_unknown(a.columns, b.columns, names, 0);
    lemma_first_unknown(a.columns, names, 0);
    let miss = first_unknown(a.columns, names, 0);
    if miss >= names.len() {
        let ca = project_spec(a, names)->Ok_0.columns;
        let cb = project_spec(b, names)->Ok_0.columns;
        assert(ca =~= cb);
    }
}

/// A name that is found among `a` is found among `b`, with the same
/// column.
proof fn lemma_same_column(a: Seq<ColumnView>, b: Seq<ColumnView>, name: Seq<u8>)
    requires
        same_columns(a, b),
    ensures
        column_index(a, name, 0) < a.len() ==> column_index(b, name, 0) < b.len() && a[column_index(
            a,
            name,
            0,
        )] == b[column_index(b, name, 0)],
{
    lemma_column_index(a, name, 0);
    lemma_column_index(b, name, 0);
    let i = column_index(a, name, 0);
    if i < a.len() {
        assert(b.contains(a[i]));
        let j = choose|j: int| 0 <= j < b.len() && b[j] == a[i];
        let jb = column_index(b, name, 0);
        if jb != j {
            assert(b[jb].name == name);
            assert(b[j].name == name);
            if jb < j {
                assert(b[jb].name != b[j].name);
            } else {
                assert(b[j].name != b[jb].name);
            }
        }
    }
}

/// Names that are found alike have the same first unknown name.
proof fn lemma_same_first_unknown(
    a: Seq<ColumnView>,
    b: Seq<ColumnView>,
    names: Seq<Seq<u8>>,
    from: int,
)
    requires
        0 <= from <= names.len(),
        forall|k: int|
            0 <= k < names.len() ==> (column_index(a, #[trigger] names[k], 0) < a.len()) == (
            column_index(b, names[k], 0) < b.len()),
    ensures
        first_unknown(a, names, from) == first_unknown(b, names, from),
    decreases names.len() - from,
{
    if from < names.len() {
        lemma_same_first_unknown(a, b, names, from + 1);
    }
}

} // verus!
