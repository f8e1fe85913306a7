//! The decoder: from delimited text to a typed table.
//!
//! After the lines to skip comes the header, then one record per row.
//! Each declared column is found in the header by its name and read
//! from the field at that place; other fields are passed over.  An
//! empty unquoted field is an empty cell.  The first record that is
//! malformed, or holds a field that is no value of its column's type,
//! ends the decoding with an error: there is no partial table.
//!
//! Records are numbered from the header, which is record 0, so the
//! first data row is record 1.

use vstd::prelude::*;
use crate::bytes::{bytes_eq, copy_bytes, find, find_byte, LINE_FEED};
use crate::csv::{
    field_views, lemma_record_scan, read_record, record_at, Field, FieldView,
};
use crate::decimal::{decimal_of_text, parse_decimal};
use crate::error::{Error, ErrorView};
use crate::number::{
    bool_of_text, i32_of_text, i64_of_text, parse_bool, parse_i32, parse_i64,
};
use crate::schema::{ColumnSpecView, ColumnType, Schema};
use crate::table::{table_of_rows, Datum, Table, TableView};

verus! {

/// The position after `n` lines from `p`; a line ends with a line feed
/// or with the text.
pub open spec fn skip_lines(s: Seq<u8>, p: int, n: nat) -> int
    decreases n,
{
    if n == 0 || p >= s.len() {
        p
    } else {
        let e = find(s, LINE_FEED, p);
        skip_lines(
            s,
            if e < s.len() {
                e + 1
            } else {
                s.len() as int
            },
            (n - 1) as nat,
        )
    }
}

/// The place of the first field from `from` on whose text is `name`, or
/// the number of fields when there is none.
pub open spec fn field_index(header: Seq<FieldView>, name: Seq<u8>, from: int) -> int
    decreases header.len() - from,
{
    if from < 0 || from >= header.len() {
        header.len() as int
    } else if header[from].text == name {
        from
    } else {
        field_index(header, name, from + 1)
    }
}

/// The first declared column from `from` on that the header does not
/// name, or the number of declared columns when it names them all.
pub open spec fn first_missing(schema: Seq<ColumnSpecView>, header: Seq<FieldView>, from: int) -> int
    decreases schema.len() - from,
{
    if from < 0 || from >= schema.len() {
        schema.len() as int
    } else if field_index(header, schema[from].name, 0) >= header.len() {
        from
    } else {
        first_missing(schema, header, from + 1)
    }
}

/// The cell that a field stands for in a column of type `ty`.  An
/// empty unquoted field is an empty cell; any other field must write a
/// value of the type.
pub open spec fn datum_of_field(ty: ColumnType, f: FieldView) -> Option<Datum> {
    if !f.quoted && f.text.len() == 0 {
        Some(Datum::Null)
    } else {
        match ty {
            ColumnType::Int32 => match i32_of_text(f.text) {
                Some(v) => Some(Datum::Int(v as i64)),
                None => None,
            },
            ColumnType::Int64 => match i64_of_text(f.text) {
                Some(v) => Some(Datum::Int(v)),
                None => None,
            },
            ColumnType::Float32 => match decimal_of_text(f.text) {
                Some(d) => Some(Datum::Float(d)),
                None => None,
            },
            ColumnType::Float64 => match decimal_of_text(f.text) {
                Some(d) => Some(Datum::Float(d)),
                None => None,
            },
            ColumnType::Boolean => match bool_of_text(f.text) {
                Some(b) => Some(Datum::Bool(b)),
                None => None,
            },
        }
    }
}

/// The cell of declared column `j` in a record.
pub open spec fn datum_at(
    schema: Seq<ColumnSpecView>,
    header: Seq<FieldView>,
    fields: Seq<FieldView>,
    j: int,
) -> Option<Datum> {
    datum_of_field(schema[j].ty, fields[field_index(header, schema[j].name, 0)])
}

/// The first declared column from `from` on whose field in the record
/// is no value of its type, or the number of declared columns.
pub open spec fn first_bad(
    schema: Seq<ColumnSpecView>,
    header: Seq<FieldView>,
    fields: Seq<FieldView>,
    from: int,
) -> int
    decreases schema.len() - from,
{
    if from < 0 || from >= schema.len() {
        schema.len() as int
    } else if datum_at(schema, header, fields, from) is None {
        from
    } else {
        first_bad(schema, header, fields, from + 1)
    }
}

/// The cells of a record, one per declared column.
pub open spec fn row_data(
    schema: Seq<ColumnSpecView>,
    header: Seq<FieldView>,
    fields: Seq<FieldView>,
) -> Seq<Datum> {
    Seq::new(schema.len(), |j: int| datum_at(schema, header, fields, j)->0)
}

/// Reads the data records from `p` on, after the rows `acc`; `record`
/// is the number of the record at `p`.
pub open spec fn rows_scan(
    s: Seq<u8>,
    p: int,
    schema: Seq<ColumnSpecView>,
    header: Seq<FieldView>,
    record: nat,
    acc: Seq<Seq<Datum>>,
) -> Result<Seq<Seq<Datum>>, ErrorView>
    decreases s.len() - p,
{
    if p < 0 || p >= s.len() {
        Ok(acc)
    } else {
        match record_at(s, p) {
            None => Err(ErrorView::MalformedRow { row: record }),
            Some((fields, next)) => {
                let bad = first_bad(schema, header, fields, 0);
                if fields.len() != header.len() {
                    Err(ErrorView::MalformedRow { row: record })
                } else if bad < schema.len() {
                    Err(
                        ErrorView::TypeCoercionError {
                            row: record,
                            column: schema[bad].name,
                            token: fields[field_index(header, schema[bad].name, 0)].text,
                        },
                    )
                } else {
                    proof {
                        lemma_record_scan(s, p, Seq::empty());
                    }
                    rows_scan(
                        s,
                        next,
                        schema,
                        header,
                        record + 1,
                        acc.push(row_data(schema, header, fields)),
                    )
                }
            },
        }
    }
}

/// What decoding yields.
///
/// The header is the record after the skipped lines; a text that ends
/// before it has a header without fields.  A declared column that the
/// header does not name is an unknown column, the first such being
/// reported.  Then every record to the end of the text is a row.
pub open spec fn decode_spec(s: Seq<u8>, schema: Seq<ColumnSpecView>, skip: nat) -> Result<
    TableView,
    ErrorView,
> {
    let begin = skip_lines(s, 0, skip);
    let head = if begin < s.len() {
        record_at(s, begin)
    } else {
        Some((Seq::<FieldView>::empty(), begin))
    };
    match head {
        None => Err(ErrorView::MalformedRow { row: 0 }),
        Some((header, after)) => {
            let miss = first_missing(schema, header, 0);
            if miss < schema.len() {
                Err(ErrorView::UnknownColumn { name: schema[miss].name })
            } else {
                match rows_scan(s, after, schema, header, 1, Seq::empty()) {
                    Ok(rows) => Ok(table_of_rows(schema, rows)),
                    Err(e) => Err(e),
                }
            }
        },
    }
}

/// `field_index` is in range, names the field unless it is the number
/// of fields, and no earlier field has the name.
pub proof fn lemma_field_index(header: Seq<FieldView>, name: Seq<u8>, from: int)
    requires
        0 <= from <= header.len(),
    ensures
        from <= field_index(header, name, from) <= header.len(),
        field_index(header, name, from) < header.len() ==> header[field_index(
            header,
            name,
            from,
        )].text == name,
        forall|k: int| from <= k < field_index(header, name, from) ==> header[k].text != name,
    decreases header.len() - from,
{
    if from < header.len() && header[from].text != name {
        lemma_field_index(header, name, from + 1);
    }
}

/// A cell read from a field fits the column it was read for.
pub proof fn lemma_datum_of_field_fits(ty: ColumnType, f: FieldView)
    ensures
        datum_of_field(ty, f) matches Some(d) ==> d.fits(ty),
{
}

/// The position after `n` lines.
fn skip(s: &[u8], n: usize) -> (p: usize)
    ensures
        p == skip_lines(s@, 0, n as nat),
        p <= s.len(),
{
    let mut p: usize = 0;
    let mut k: usize = 0;
    while k < n && p < s.len()
        invariant
            k <= n,
            p <= s.len(),
            skip_lines(s@, 0, n as nat) == skip_lines(s@, p as int, (n - k) as nat),
        decreases n - k,
    {
        let e = find_byte(s, LINE_FEED, p);
        p = if e < s.len() {
            e + 1
        } else {
            s.len()
        };
        k += 1;
    }
    p
}

/// The place of the first field of the header whose text is `name`.
fn index_of(header: &Vec<Field>, name: &[u8]) -> (i: usize)
    ensures
        i == field_index(field_views(header@), name@, 0),
        i <= header@.len(),
{
    let mut i: usize = 0;
    while i < header.len() && !bytes_eq(header[i].text.as_slice(), name)
        invariant
            i <= header@.len(),
            field_index(field_views(header@), name@, 0) == field_index(
                field_views(header@),
                name@,
                i as int,
            ),
        decreases header@.len() - i,
    {
        i += 1;
    }
    i
}

/// For each declared column the place of its field, or the first
/// declared column that the header does not name.
fn find_sources(schema: &Schema, header: &Vec<Field>) -> (r: Result<Vec<usize>, usize>)
    ensures
        match r {
            Ok(sources) => {
                &&& first_missing(schema@, field_views(header@), 0) == schema@.len()
                &&& sources@.len() == schema@.len()
                &&& forall|j: int|
                    0 <= j < schema@.len() ==> (#[trigger] sources@[j]) == field_index(
                        field_views(header@),
                        schema@[j].name,
                        0,
                    ) && sources@[j] < header@.len()
            },
            Err(j) => j == first_missing(schema@, field_views(header@), 0) && j < schema@.len(),
        },
{
    let mut sources: Vec<usize> = Vec::new();
    let mut j: usize = 0;
    while j < schema.columns.len()
        invariant
            j <= schema@.len(),
            schema@.len() == schema.columns@.len(),
            sources@.len() == j,
            first_missing(schema@, field_views(header@), 0) == first_missing(
                schema@,
                field_views(header@),
                j as int,
            ),
            forall|q: int|
                0 <= q < j ==> (#[trigger] sources@[q]) == field_index(
                    field_views(header@),
                    schema@[q].name,
                    0,
                ) && sources@[q] < header@.len(),
        decreases schema@.len() - j,
    {
        let i = index_of(header, schema.columns[j].name.as_slice());
        if i >= header.len() {
            return Err(j);
        }
        sources.push(i);
        j += 1;
    }
    Ok(sources)
}

/// Reads one field as a cell of a column of type `ty`.
pub fn convert_field(ty: ColumnType, f: &Field) -> (r: Option<Datum>)
    ensures
        r == datum_of_field(ty, f@),
{
    if !f.quoted && f.text.len() == 0 {
        return Some(Datum::Null);
    }
    match ty {
        ColumnType::Int32 => match parse_i32(f.text.as_slice()) {
            Some(v) => Some(Datum::Int(v as i64)),
            None => None,
        },
        ColumnType::Int64 => match parse_i64(f.text.as_slice()) {
            Some(v) => Some(Datum::Int(v)),
            None => None,
        },
        ColumnType::Float32 => match parse_decimal(f.text.as_slice()) {
            Some(d) => Some(Datum::Float(d)),
            None => None,
        },
        ColumnType::Float64 => match parse_decimal(f.text.as_slice()) {
            Some(d) => Some(Datum::Float(d)),
            None => None,
        },
        ColumnType::Boolean => match parse_bool(f.text.as_slice()) {
            Some(b) => Some(Datum::Bool(b)),
            None => None,
        },
    }
}

/// The cells of a record, or the first declared column whose field is
/// no value of its type.
fn convert_row(
    schema: &Schema,
    sources: &Vec<usize>,
    fields: &Vec<Field>,
    Ghost(header): Ghost<Seq<FieldView>>,
) -> (r: Result<Vec<Datum>, usize>)
    requires
        sources@.len() == schema@.len(),
        forall|j: int|
            0 <= j < schema@.len() ==> (#[trigger] sources@[j]) == field_index(
                header,
                schema@[j].name,
                0,
            ) && sources@[j] < fields@.len(),
    ensures
        match r {
            Ok(row) => first_bad(schema@, header, field_views(fields@), 0) == schema@.len()
                && row@ == row_data(schema@, header, field_views(fields@)),
            Err(j) => j == first_bad(schema@, header, field_views(fields@), 0) && j
                < schema@.len(),
        },
{
    let ghost fv = field_views(fields@);
    let mut row: Vec<Datum> = Vec::new();
    let mut j: usize = 0;
    while j < schema.columns.len()
        invariant
            j <= schema@.len(),
            schema@.len() == schema.columns@.len(),
            sources@.len() == schema@.len(),
            fv == field_views(fields@),
            forall|q: int|
                0 <= q < schema@.len() ==> (#[trigger] sources@[q]) == field_index(
                    header,
                    schema@[q].name,
                    0,
                ) && sources@[q] < fields@.len(),
            row@.len() == j,
            first_bad(schema@, header, fv, 0) == first_bad(schema@, header, fv, j as int),
            forall|q: int|
                0 <= q < j ==> datum_at(schema@, header, fv, q) == Some(#[trigger] row@[q]),
        decreases schema@.len() - j,
    {
        let src = sources[j];
        proof {
            assert(fv[src as int] == fields@[src as int]@);
            assert(schema@[j as int].ty == schema.columns@[j as int].ty);
        }
        match convert_field(schema.columns[j].ty, &fields[src]) {
            None => {
                return Err(j);
            },
            Some(d) => {
                row.push(d);
            },
        }
        j += 1;
    }
    proof {
        assert(row@ =~= row_data(schema@, header, fv));
    }
    Ok(row)
}

/// Decodes delimited text against a schema.
///
/// The result is exactly what `decode_spec` gives for the bytes, the
/// schema and the number of lines to skip: the table, with the declared
/// columns in the order of their declaration, or the first error.
pub fn decode(input: &[u8], schema: &Schema, skip_rows: usize) -> (r: Result<Table, Error>)
    ensures
        match r {
            Ok(t) => t.wf() && decode_spec(input@, schema@, skip_rows as nat) == Ok::<
                TableView,
                ErrorView,
            >(t@),
            Err(e) => decode_spec(input@, schema@, skip_rows as nat) == Err::<
                TableView,
                ErrorView,
            >(e@),
        },
{
    let begin = skip(input, skip_rows);
    if begin >= input.len() {
        if schema.columns.len() == 0 {
            return Ok(Table::new(schema));
        } else {
            proof {
                lemma_field_index(Seq::<FieldView>::empty(), schema@[0].name, 0);
            }
            return Err(Error::UnknownColumn { name: copy_bytes(schema.columns[0].name.as_slice()) });
        }
    }
    let (header, after) = match read_record(input, begin) {
        None => {
            return Err(Error::MalformedRow { row: 0 });
        },
        Some(x) => x,
    };
    let ghost hv = field_views(header@);
    let sources = match find_sources(schema, &header) {
        Err(j) => {
            return Err(Error::UnknownColumn { name: copy_bytes(schema.columns[j].name.as_slice()) });
        },
        Ok(v) => v,
    };
    let mut table = Table::new(schema);
    let mut p: usize = after;
    let mut record: usize = 1;
    let ghost mut acc: Seq<Seq<Datum>> = Seq::empty();
    let ghost all = rows_scan(input@, after as int, schema@, hv, 1, Seq::empty());
    proof {
        assert(decode_spec(input@, schema@, skip_rows as nat) == match all {
            Ok(rows) => Ok::<TableView, ErrorView>(table_of_rows(schema@, rows)),
            Err(e) => Err(e),
        });
    }
    while p < input.len()
        invariant
            1 <= record <= p <= input.len(),
            all == rows_scan(input@, after as int, schema@, hv, 1, Seq::empty()),
            decode_spec(input@, schema@, skip_rows as nat) == match all {
                Ok(rows) => Ok::<TableView, ErrorView>(table_of_rows(schema@, rows)),
                Err(e) => Err(e),
            },
            acc.len() + 1 == record,
            hv == field_views(header@),
            sources@.len() == schema@.len(),
            forall|j: int|
                0 <= j < schema@.len() ==> (#[trigger] sources@[j]) == field_index(
                    hv,
                    schema@[j].name,
                    0,
                ) && sources@[j] < header@.len(),
            table.wf(),
            table@ == table_of_rows(schema@, acc),
            rows_scan(input@, after as int, schema@, hv, 1, Seq::empty()) == rows_scan(
                input@,
                p as int,
                schema@,
                hv,
                record as nat,
                acc,
            ),
        decreases input.len() - p,
    {
        match read_record(input, p) {
            None => {
                return Err(Error::MalformedRow { row: record });
            },
            Some((fields, next)) => {
                if fields.len() != header.len() {
                    return Err(Error::MalformedRow { row: record });
                }
                let ghost fv = field_views(fields@);
                match convert_row(schema, &sources, &fields, Ghost(hv)) {
                    Err(j) => {
                        let src = sources[j];
                        proof {
                            assert(fv[src as int] == fields@[src as int]@);
                        }
                        return Err(
                            Error::TypeCoercionError {
                                row: record,
                                column: copy_bytes(schema.columns[j].name.as_slice()),
                                token: copy_bytes(fields[src].text.as_slice()),
                            },
                        );
                    },
                    Ok(row) => {
                        proof {
                            lemma_first_bad(schema@, hv, fv, 0);
                            assert forall|j: int| 0 <= j < row@.len() implies (#[trigger] row@[j]).fits(
                                table@.columns[j].ty,
                            ) by {
                                assert(sources@[j] < fv.len());
                                lemma_datum_of_field_fits(
                                    schema@[j].ty,
                                    fv[field_index(hv, schema@[j].name, 0)],
                                );
                            }
                        }
                        let ghost before = table@;
                        let ok = table.push_row(&row);
                        proof {
                            assert(ok);
                            let want = table_of_rows(schema@, acc.push(row@));
                            assert forall|j: int| 0 <= j < want.columns.len() implies table@.columns[j]
                                == want.columns[j] by {
                                assert(table@.columns[j].cells =~= want.columns[j].cells);
                            }
                            assert(table@.columns =~= want.columns);
                            acc = acc.push(row@);
                        }
                    },
                }
                p = next;
                record += 1;
            },
        }
    }
    Ok(table)
}

/// `first_bad` is in range, every declared column before it has a
/// cell, and the column at it, if any, has none.
pub proof fn lemma_first_bad(
    schema: Seq<ColumnSpecView>,
    header: Seq<FieldView>,
    fields: Seq<FieldView>,
    from: int,
)
    requires
        0 <= from <= schema.len(),
    ensures
        from <= first_bad(schema, header, fields, from) <= schema.len(),
        first_bad(schema, header, fields, from) < schema.len() ==> datum_at(
            schema,
            header,
            fields,
            first_bad(schema, header, fields, from),
        ) is None,
        forall|k: int|
            from <= k < first_bad(schema, header, fields, from) ==> datum_at(
                schema,
                header,
                fields,
                k,
            ) is Some,
    decreases schema.len() - from,
{
    if from < schema.len() && datum_at(schema, header, fields, from) is Some {
        lemma_first_bad(schema, header, fields, from + 1);
    }
}

} // verus!
