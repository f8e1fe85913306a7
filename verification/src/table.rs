//! The table: named, typed columns of equal length.

use vstd::prelude::*;
use crate::bytes::copy_bytes;
use crate::decimal::{decimal_lt, Decimal};
use crate::schema::{ColumnSpecView, ColumnType, Schema};

verus! {

/// One cell of a table: nothing, or a value.
#[derive(Clone, Copy, Debug, PartialEq, Eq, Structural)]
pub enum Datum {
    Null,
    Int(i64),
    Float(Decimal),
    Bool(bool),
}

impl Datum {
    /// The place of the cell's kind in the order: nothing comes first.
    pub open spec fn rank(self) -> int {
        match self {
            Datum::Null => 0,
            Datum::Int(_) => 1,
            Datum::Float(_) => 2,
            Datum::Bool(_) => 3,
        }
    }

    /// The place of the cell's value among the values of its kind;
    /// `false` comes before `true`.
    pub open spec fn key(self) -> int {
        match self {
            Datum::Null => 0,
            Datum::Int(v) => v as int,
            Datum::Float(d) => d.key(),
            Datum::Bool(b) => if b {
                1
            } else {
                0
            },
        }
    }

    /// The order of cells: by kind, then by value.  Within one column
    /// it puts the empty cells first and then the values in rising
    /// order.
    pub open spec fn lt(self, other: Datum) -> bool {
        self.rank() < other.rank() || (self.rank() == other.rank() && self.key() < other.key())
    }

    /// Whether a column of type `ty` can hold the cell.
    pub open spec fn fits(self, ty: ColumnType) -> bool {
        match self {
            Datum::Null => true,
            Datum::Int(v) => ty == ColumnType::Int64 || (ty == ColumnType::Int32 && i32::MIN <= v
                <= i32::MAX),
            Datum::Float(_) => ty == ColumnType::Float32 || ty == ColumnType::Float64,
            Datum::Bool(_) => ty == ColumnType::Boolean,
        }
    }
}

/// The place of the cell's kind in the order.
fn rank_of(a: Datum) -> (r: u8)
    ensures
        r == a.rank(),
{
    match a {
        Datum::Null => 0,
        Datum::Int(_) => 1,
        Datum::Float(_) => 2,
        Datum::Bool(_) => 3,
    }
}

/// Whether `a` comes before `b` in the order of cells.
pub fn datum_lt(a: Datum, b: Datum) -> (r: bool)
    ensures
        r == a.lt(b),
{
    let ra = rank_of(a);
    let rb = rank_of(b);
    if ra != rb {
        ra < rb
    } else {
        match (a, b) {
            (Datum::Int(x), Datum::Int(y)) => x < y,
            (Datum::Float(x), Datum::Float(y)) => decimal_lt(x, y),
            (Datum::Bool(x), Datum::Bool(y)) => !x && y,
            _ => false,
        }
    }
}

/// The values of a column, densely packed by type.
#[derive(Debug, PartialEq, Eq)]
pub enum Values {
    Int32(Vec<i32>),
    Int64(Vec<i64>),
    Float32(Vec<Decimal>),
    Float64(Vec<Decimal>),
    Boolean(Vec<bool>),
}

impl Values {
    pub open spec fn len(&self) -> nat {
        match *self {
            Values::Int32(v) => v@.len(),
            Values::Int64(v) => v@.len(),
            Values::Float32(v) => v@.len(),
            Values::Float64(v) => v@.len(),
            Values::Boolean(v) => v@.len(),
        }
    }

    pub open spec fn ty(&self) -> ColumnType {
        match *self {
            Values::Int32(_) => ColumnType::Int32,
            Values::Int64(_) => ColumnType::Int64,
            Values::Float32(_) => ColumnType::Float32,
            Values::Float64(_) => ColumnType::Float64,
            Values::Boolean(_) => ColumnType::Boolean,
        }
    }

    pub open spec fn value(&self, i: int) -> Datum {
        match *self {
            Values::Int32(v) => Datum::Int(v@[i] as i64),
            Values::Int64(v) => Datum::Int(v@[i]),
            Values::Float32(v) => Datum::Float(v@[i]),
            Values::Float64(v) => Datum::Float(v@[i]),
            Values::Boolean(v) => Datum::Bool(v@[i]),
        }
    }
}

/// A column: a name, the values, and for each row whether it holds a
/// value at all.
#[derive(Debug, PartialEq, Eq)]
pub struct Column {
    pub name: Vec<u8>,
    pub values: Values,
    pub valid: Vec<bool>,
}

/// The mathematical value of a `Column`.
pub struct ColumnView {
    pub name: Seq<u8>,
    pub ty: ColumnType,
    pub cells: Seq<Datum>,
}

impl View for Column {
    type V = ColumnView;

    open spec fn view(&self) -> ColumnView {
        ColumnView {
            name: self.name@,
            ty: self.values.ty(),
            cells: Seq::new(self.valid@.len(), |i: int| self.cell(i)),
        }
    }
}

impl Column {
    /// The values and the validity marks are of one length.
    pub open spec fn wf(&self) -> bool {
        self.values.len() == self.valid@.len()
    }

    /// The cell of row `i`.
    pub open spec fn cell(&self, i: int) -> Datum {
        if self.valid@[i] {
            self.values.value(i)
        } else {
            Datum::Null
        }
    }

    /// Every cell of a column fits the column's type.
    pub proof fn lemma_cells_fit(&self)
        requires
            self.wf(),
        ensures
            forall|i: int| 0 <= i < self@.cells.len() ==> (#[trigger] self@.cells[i]).fits(self@.ty),
    {
    }

    /// An empty column.
    pub fn new(name: Vec<u8>, ty: ColumnType) -> (r: Column)
        ensures
            r.wf(),
            r@ == (ColumnView { name: name@, ty, cells: Seq::empty() }),
    {
        let values = match ty {
            ColumnType::Int32 => Values::Int32(Vec::new()),
            ColumnType::Int64 => Values::Int64(Vec::new()),
            ColumnType::Float32 => Values::Float32(Vec::new()),
            ColumnType::Float64 => Values::Float64(Vec::new()),
            ColumnType::Boolean => Values::Boolean(Vec::new()),
        };
        let r = Column { name, values, valid: Vec::new() };
        proof {
            assert(r@.cells =~= Seq::empty());
        }
        r
    }

    /// The number of rows.
    pub fn len(&self) -> (n: usize)
        ensures
            n == self@.cells.len(),
    {
        self.valid.len()
    }

    /// The type of the values.
    pub fn column_type(&self) -> (ty: ColumnType)
        ensures
            ty == self@.ty,
    {
        match &self.values {
            Values::Int32(_) => ColumnType::Int32,
            Values::Int64(_) => ColumnType::Int64,
            Values::Float32(_) => ColumnType::Float32,
            Values::Float64(_) => ColumnType::Float64,
            Values::Boolean(_) => ColumnType::Boolean,
        }
    }

    /// The cell of row `i`.
    pub fn get(&self, i: usize) -> (d: Datum)
        requires
            self.wf(),
            i < self@.cells.len(),
        ensures
            d == self@.cells[i as int],
    {
        if !self.valid[i] {
            Datum::Null
        } else {
            match &self.values {
                Values::Int32(v) => Datum::Int(v[i] as i64),
                Values::Int64(v) => Datum::Int(v[i]),
                Values::Float32(v) => Datum::Float(v[i]),
                Values::Float64(v) => Datum::Float(v[i]),
                Values::Boolean(v) => Datum::Bool(v[i]),
            }
        }
    }

    /// Appends a cell.  A cell that does not fit the column's type is
    /// not appended, and `false` is returned.
    pub fn push(&mut self, d: Datum) -> (ok: bool)
        requires
            old(self).wf(),
        ensures
            final(self).wf(),
            ok == d.fits(old(self)@.ty),
            ok ==> final(self)@ == (ColumnView {
                cells: old(self)@.cells.push(d),
                ..old(self)@
            }),
            !ok ==> *final(self) == *old(self),
    {
        let ghost before = self@;
        let ok = match &mut self.values {
            Values::Int32(v) => match d {
                Datum::Null => {
                    v.push(0);
                    true
                },
                Datum::Int(x) => if -2147483648 <= x && x <= 2147483647 {
                    v.push(x as i32);
                    true
                } else {
                    false
                },
                _ => false,
            },
            Values::Int64(v) => match d {
                Datum::Null => {
                    v.push(0);
                    true
                },
                Datum::Int(x) => {
                    v.push(x);
                    true
                },
                _ => false,
            },
            Values::Float32(v) => match d {
                Datum::Null => {
                    v.push(Decimal { negative: false, mantissa: 0, exponent: 0 });
                    true
                },
                Datum::Float(x) => {
                    v.push(x);
                    true
                },
                _ => false,
            },
            Values::Float64(v) => match d {
                Datum::Null => {
                    v.push(Decimal { negative: false, mantissa: 0, exponent: 0 });
                    true
                },
                Datum::Float(x) => {
                    v.push(x);
                    true
                },
                _ => false,
            },
            Values::Boolean(v) => match d {
                Datum::Null => {
                    v.push(false);
                    true
                },
                Datum::Bool(x) => {
                    v.push(x);
                    true
                },
                _ => false,
            },
        };
        if ok {
            let present = match d {
                Datum::Null => false,
                _ => true,
            };
            self.valid.push(present);
            proof {
                assert(self@.cells =~= before.cells.push(d));
            }
        }
        ok
    }

    /// A column of the same name and type whose row `k` is row
    /// `order[k]` of this one.
    pub fn permuted(&self, order: &Vec<usize>) -> (r: Column)
        requires
            self.wf(),
            forall|k: int| 0 <= k < order@.len() ==> (#[trigger] order@[k]) < self@.cells.len(),
        ensures
            r.wf(),
            r@ == (ColumnView {
                cells: Seq::new(order@.len(), |k: int| self@.cells[order@[k] as int]),
                ..self@
            }),
    {
        let mut out = Column::new(copy_bytes(self.name.as_slice()), self.column_type());
        let mut k: usize = 0;
        while k < order.len()
            invariant
                k <= order@.len(),
                self.wf(),
                out.wf(),
                forall|q: int| 0 <= q < order@.len() ==> (#[trigger] order@[q]) < self@.cells.len(),
                out@.name == self@.name,
                out@.ty == self@.ty,
                out@.cells == Seq::new(k as nat, |q: int| self@.cells[order@[q] as int]),
            decreases order@.len() - k,
        {
            let d = self.get(order[k]);
            proof {
                self.lemma_cells_fit();
            }
            let ghost before = out@;
            let ok = out.push(d);
            proof {
                assert(ok);
                assert(out@.cells =~= Seq::new(
                    (k + 1) as nat,
                    |q: int| self@.cells[order@[q] as int],
                ));
            }
            k += 1;
        }
        out
    }

    /// A copy of the column.
    pub fn duplicate(&self) -> (r: Column)
        requires
            self.wf(),
        ensures
            r.wf(),
            r@ == self@,
    {
        let mut out = Column::new(copy_bytes(self.name.as_slice()), self.column_type());
        let mut k: usize = 0;
        while k < self.len()
            invariant
                k <= self@.cells.len(),
                self.wf(),
                out.wf(),
                out@.name == self@.name,
                out@.ty == self@.ty,
                out@.cells == self@.cells.subrange(0, k as int),
            decreases self@.cells.len() - k,
        {
            let d = self.get(k);
            proof {
                self.lemma_cells_fit();
            }
            let ok = out.push(d);
            proof {
                assert(ok);
                assert(out@.cells =~= self@.cells.subrange(0, k + 1));
            }
            k += 1;
        }
        proof {
            assert(out@.cells =~= self@.cells);
        }
        out
    }
}

/// A table: columns in order, all of `rows` rows.
#[derive(Debug, PartialEq, Eq)]
pub struct Table {
    pub columns: Vec<Column>,
    pub rows: usize,
}

/// The mathematical value of a `Table`.
pub struct TableView {
    pub rows: nat,
    pub columns: Seq<ColumnView>,
}

impl View for Table {
    type V = TableView;

    open spec fn view(&self) -> TableView {
        TableView {
            rows: self.rows as nat,
            columns: Seq::new(self.columns@.len(), |j: int| self.columns@[j]@),
        }
    }
}

impl TableView {
    /// The row-count invariant: every column has `rows` cells.
    pub open spec fn wf(self) -> bool {
        forall|j: int| 0 <= j < self.columns.len() ==> (#[trigger] self.columns[j]).cells.len() == self.rows
    }

    /// Every cell fits the type of its column.
    pub open spec fn typed(self) -> bool {
        forall|j: int, i: int|
            0 <= j < self.columns.len() && 0 <= i < self.columns[j].cells.len() ==> (
            #[trigger] self.columns[j].cells[i]).fits(self.columns[j].ty)
    }
}

/// The table with the columns of `schema` and the given rows, each row
/// holding one cell per column.
pub open spec fn table_of_rows(schema: Seq<ColumnSpecView>, rows: Seq<Seq<Datum>>) -> TableView {
    TableView {
        rows: rows.len(),
        columns: Seq::new(
            schema.len(),
            |j: int|
                ColumnView {
                    name: schema[j].name,
                    ty: schema[j].ty,
                    cells: Seq::new(rows.len(), |i: int| rows[i][j]),
                },
        ),
    }
}

impl Table {
    /// Every column is well formed and has `rows` rows.
    pub open spec fn wf(&self) -> bool {
        forall|j: int|
            0 <= j < self.columns@.len() ==> (#[trigger] self.columns@[j]).wf()
                && self.columns@[j].valid@.len() == self.rows
    }

    /// A well-formed table has a well-formed, typed value.
    pub proof fn lemma_view_wf(&self)
        requires
            self.wf(),
        ensures
            self@.wf(),
            self@.typed(),
    {
        assert forall|j: int, i: int|
            0 <= j < self@.columns.len() && 0 <= i < self@.columns[j].cells.len() implies (
        #[trigger] self@.columns[j].cells[i]).fits(self@.columns[j].ty) by {
            self.columns@[j].lemma_cells_fit();
        }
    }

    /// The table of `schema` without rows.
    pub fn new(schema: &Schema) -> (r: Table)
        ensures
            r.wf(),
            r@ == table_of_rows(schema@, Seq::empty()),
    {
        let mut columns: Vec<Column> = Vec::new();
        let mut j: usize = 0;
        while j < schema.columns.len()
            invariant
                j <= schema.columns@.len(),
                columns@.len() == j,
                forall|q: int|
                    0 <= q < j ==> (#[trigger] columns@[q]).wf() && columns@[q]@ == (ColumnView {
                        name: schema@[q].name,
                        ty: schema@[q].ty,
                        cells: Seq::empty(),
                    }),
            decreases schema.columns@.len() - j,
        {
            let c = Column::new(copy_bytes(schema.columns[j].name.as_slice()), schema.columns[j].ty);
            columns.push(c);
            j += 1;
        }
        let r = Table { columns, rows: 0 };
        proof {
            let want = table_of_rows(schema@, Seq::empty());
            assert forall|q: int| 0 <= q < r@.columns.len() implies r@.columns[q]
                == want.columns[q] by {
                assert(want.columns[q].cells =~= Seq::empty());
            }
            assert(r@.columns =~= want.columns);
            assert forall|q: int| 0 <= q < r.columns@.len() implies (#[trigger] r.columns@[q]).wf()
                && r.columns@[q].valid@.len() == r.rows by {
                assert(r.columns@[q]@.cells.len() == 0);
            }
        }
        r
    }

    /// The number of rows.
    pub fn row_count(&self) -> (n: usize)
        ensures
            n == self@.rows,
    {
        self.rows
    }

    /// The number of columns.
    pub fn column_count(&self) -> (n: usize)
        ensures
            n == self@.columns.len(),
    {
        self.columns.len()
    }

    /// Appends a row, one cell per column.  A row of another width, or
    /// with a cell that does not fit its column, is not appended, and
    /// `false` is returned.
    pub fn push_row(&mut self, row: &Vec<Datum>) -> (ok: bool)
        requires
            old(self).wf(),
            old(self).rows < usize::MAX,
        ensures
            final(self).wf(),
            ok == row_fits(old(self)@, row@),
            ok ==> final(self)@ == with_row(old(self)@, row@),
            !ok ==> final(self)@ == old(self)@,
    {
        if row.len() != self.columns.len() {
            return false;
        }
        let mut j: usize = 0;
        while j < row.len()
            invariant
                j <= row@.len(),
                row@.len() == self.columns@.len(),
                *self == *old(self),
                old(self).wf(),
                forall|q: int| 0 <= q < j ==> (#[trigger] row@[q]).fits(self@.columns[q].ty),
            decreases row@.len() - j,
        {
            if !datum_fits(row[j], self.columns[j].column_type()) {
                return false;
            }
            j += 1;
        }
        let mut j: usize = 0;
        while j < row.len()
            invariant
                j <= row@.len(),
                row@.len() == self.columns@.len(),
                self.columns@.len() == old(self).columns@.len(),
                self.rows == old(self).rows,
                old(self).wf(),
                old(self).rows < usize::MAX,
                forall|q: int| 0 <= q < row@.len() ==> (#[trigger] row@[q]).fits(old(self)@.columns[q].ty),
                forall|q: int|
                    0 <= q < j ==> (#[trigger] self.columns@[q]).wf() && self.columns@[q]@ == (
                    ColumnView {
                        cells: old(self).columns@[q]@.cells.push(row@[q]),
                        ..old(self).columns@[q]@
                    }),
                forall|q: int|
                    j <= q < row@.len() ==> (#[trigger] self.columns@[q]) == old(self).columns@[q],
            decreases row@.len() - j,
        {
            let ghost prev = self.columns@;
            let ok = self.columns[j].push(row[j]);
            proof {
                assert(old(self)@.columns[j as int] == old(self).columns@[j as int]@);
                assert(ok);
            }
            j += 1;
        }
        self.rows = self.rows + 1;
        proof {
            let want = with_row(old(self)@, row@);
            assert forall|q: int| 0 <= q < self@.columns.len() implies self@.columns[q]
                == want.columns[q] by {
                assert(old(self)@.columns[q] == old(self).columns@[q]@);
            }
            assert(self@.columns =~= want.columns);
            assert forall|q: int| 0 <= q < self.columns@.len() implies (
            #[trigger] self.columns@[q]).wf() && self.columns@[q].valid@.len() == self.rows by {
                assert(old(self).columns@[q].wf());
                assert(self.columns@[q]@.cells.len() == old(self).columns@[q]@.cells.len() + 1);
            }
        }
        true
    }
}

/// Whether `row` has one cell for each column of `t`, each fitting its
/// column.
pub open spec fn row_fits(t: TableView, row: Seq<Datum>) -> bool {
    &&& row.len() == t.columns.len()
    &&& forall|j: int| 0 <= j < row.len() ==> (#[trigger] row[j]).fits(t.columns[j].ty)
}

/// `t` with `row` appended.
pub open spec fn with_row(t: TableView, row: Seq<Datum>) -> TableView {
    TableView {
        rows: t.rows + 1,
        columns: Seq::new(
            t.columns.len(),
            |j: int| ColumnView { cells: t.columns[j].cells.push(row[j]), ..t.columns[j] },
        ),
    }
}

/// Whether a column of type `ty` can hold `d`.
pub fn datum_fits(d: Datum, ty: ColumnType) -> (r: bool)
    ensures
        r == d.fits(ty),
{
    match d {
        Datum::Null => true,
        Datum::Int(v) => match ty {
            ColumnType::Int64 => true,
            ColumnType::Int32 => -2147483648 <= v && v <= 2147483647,
            _ => false,
        },
        Datum::Float(_) => match ty {
            ColumnType::Float32 => true,
            ColumnType::Float64 => true,
            _ => false,
        },
        Datum::Bool(_) => match ty {
            ColumnType::Boolean => true,
            _ => false,
        },
    }
}

} // verus!
