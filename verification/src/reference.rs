//! The reference writing of a table as delimited text, and the law
//! that decoding it gives the table back.

use vstd::prelude::*;
use crate::bytes::{
    lemma_occurs_at, lemma_occurs_split, occurs, CARRIAGE_RETURN, COMMA, LINE_FEED, MINUS, QUOTE,
};
use crate::csv::{
    field_at, field_stop, lemma_record_scan, plain_end, quoted_scan, record_at, record_scan,
    FieldView,
};
use crate::decode::{
    datum_at, decode_spec, field_index, first_bad, first_missing, lemma_datum_of_field_fits,
    lemma_field_index, lemma_first_bad, row_data, rows_scan,
};
use crate::error::ErrorView;
use crate::format::{
    format_bool, format_decimal, format_int, format_nat, is_plain, lemma_datum_normal,
    lemma_datum_of_text, lemma_text_plain, normal, plain_byte, text_of_datum,
};
use crate::schema::{schema_wf, ColumnSpecView};
use crate::table::{table_of_rows, Datum, Table, TableView};

verus! {

/// `s` with every quote doubled.
pub open spec fn escape(s: Seq<u8>) -> Seq<u8>
    decreases s.len(),
{
    if s.len() == 0 {
        Seq::empty()
    } else if s[0] == QUOTE {
        seq![QUOTE, QUOTE] + escape(s.skip(1))
    } else {
        seq![s[0]] + escape(s.skip(1))
    }
}

/// `s` as a quoted field.
pub open spec fn quoted_text(s: Seq<u8>) -> Seq<u8> {
    seq![QUOTE] + escape(s) + seq![QUOTE]
}

/// Whether a name must be quoted in the header: when it is empty or
/// holds a comma, a quote or a line end.
pub open spec fn must_quote(name: Seq<u8>) -> bool {
    name.len() == 0 || !is_plain(name)
}

/// A name as a field of the header.
pub open spec fn name_text(name: Seq<u8>) -> Seq<u8> {
    if must_quote(name) {
        quoted_text(name)
    } else {
        name
    }
}

/// Fields joined by commas and ended by a line feed.
pub open spec fn record_text(fields: Seq<Seq<u8>>) -> Seq<u8>
    decreases fields.len(),
{
    if fields.len() == 0 {
        seq![LINE_FEED]
    } else if fields.len() == 1 {
        fields[0] + seq![LINE_FEED]
    } else {
        fields[0] + seq![COMMA] + record_text(fields.skip(1))
    }
}

/// The fields of the header of `t`.
pub open spec fn header_texts(t: TableView) -> Seq<Seq<u8>> {
    Seq::new(t.columns.len(), |j: int| name_text(t.columns[j].name))
}

/// The fields of row `i` of `t`.
pub open spec fn row_texts(t: TableView, i: int) -> Seq<Seq<u8>> {
    Seq::new(t.columns.len(), |j: int| text_of_datum(t.columns[j].cells[i]))
}

/// The records of the rows of `t` from row `i` on.
pub open spec fn rows_text(t: TableView, i: int) -> Seq<u8>
    decreases t.rows - i,
{
    if i < 0 || i >= t.rows {
        Seq::empty()
    } else {
        record_text(row_texts(t, i)) + rows_text(t, i + 1)
    }
}

/// The reference writing of `t`: the header, then one record per row.
pub open spec fn reference_csv(t: TableView) -> Seq<u8> {
    record_text(header_texts(t)) + rows_text(t, 0)
}

/// The schema that `t` has.
pub open spec fn schema_of_table(t: TableView) -> Seq<ColumnSpecView> {
    Seq::new(
        t.columns.len(),
        |j: int| ColumnSpecView { name: t.columns[j].name, ty: t.columns[j].ty },
    )
}

/// Whether `t` can be written and read back: every column has as many
/// cells as the table has rows, every cell fits its column and is in
/// normal form, and no two columns have the same name.
pub open spec fn encodable(t: TableView) -> bool {
    &&& t.wf()
    &&& t.typed()
    &&& forall|j: int, i: int|
        0 <= j < t.columns.len() && 0 <= i < t.columns[j].cells.len() ==> normal(
            #[trigger] t.columns[j].cells[i],
        )
    &&& forall|a: int, b: int|
        0 <= a < b < t.columns.len() ==> (#[trigger] t.columns[a]).name != (
        #[trigger] t.columns[b]).name
}

/// An unquoted field of plain bytes ends where a field may end.
proof fn lemma_plain_end_at(s: Seq<u8>, p: int, e: int)
    requires
        0 <= p <= e <= s.len(),
        forall|k: int| p <= k < e ==> plain_byte(#[trigger] s[k]),
        field_stop(s, e),
    ensures
        plain_end(s, p) == e,
    decreases e - p,
{
    if p < e {
        assert(plain_byte(s[p]));
        lemma_plain_end_at(s, p + 1, e);
    }
}

/// An unquoted field is read as it stands.
proof fn lemma_field_plain(s: Seq<u8>, p: int, text: Seq<u8>)
    requires
        occurs(s, p, text),
        is_plain(text),
        field_stop(s, p + text.len()),
    ensures
        field_at(s, p) == Some((FieldView { text, quoted: false }, p + text.len())),
{
    let e = p + text.len();
    assert forall|k: int| p <= k < e implies plain_byte(#[trigger] s[k]) by {
        lemma_occurs_at(s, p, text, k - p);
        assert(plain_byte(text[k - p]));
    }
    lemma_plain_end_at(s, p, e);
    if text.len() > 0 {
        assert(plain_byte(s[p]));
    }
}

/// The inside of a quoted field is read as the text that was escaped.
proof fn lemma_quoted_scan_escape(s: Seq<u8>, q: int, text: Seq<u8>, acc: Seq<u8>)
    requires
        occurs(s, q, escape(text) + seq![QUOTE]),
        q + escape(text).len() + 1 >= s.len() || s[q + escape(text).len() + 1] != QUOTE,
    ensures
        quoted_scan(s, q, acc) == Some((acc + text, q + escape(text).len() + 1)),
    decreases text.len(),
{
    let close = seq![QUOTE];
    if text.len() == 0 {
        lemma_occurs_at(s, q, escape(text) + close, 0);
        assert(acc + text =~= acc);
    } else {
        let rest = text.skip(1);
        if text[0] == QUOTE {
            let two = seq![QUOTE, QUOTE];
            assert(escape(text) + close =~= two + (escape(rest) + close));
            lemma_occurs_split(s, q, two, escape(rest) + close);
            lemma_occurs_at(s, q, two, 0);
            lemma_occurs_at(s, q, two, 1);
            lemma_quoted_scan_escape(s, q + 2, rest, acc.push(QUOTE));
            assert(acc.push(QUOTE) + rest =~= acc + text);
        } else {
            let one = seq![text[0]];
            assert(escape(text) + close =~= one + (escape(rest) + close));
            lemma_occurs_split(s, q, one, escape(rest) + close);
            lemma_occurs_at(s, q, one, 0);
            lemma_quoted_scan_escape(s, q + 1, rest, acc.push(text[0]));
            assert(acc.push(text[0]) + rest =~= acc + text);
        }
    }
}

/// A quoted field is read as the text that was quoted.
proof fn lemma_field_quoted(s: Seq<u8>, p: int, text: Seq<u8>)
    requires
        occurs(s, p, quoted_text(text)),
        field_stop(s, p + quoted_text(text).len()),
    ensures
        field_at(s, p) == Some((FieldView { text, quoted: true }, p + quoted_text(text).len())),
{
    let open = seq![QUOTE];
    let body = escape(text) + seq![QUOTE];
    assert(quoted_text(text) =~= open + body);
    lemma_occurs_split(s, p, open, body);
    lemma_occurs_at(s, p, open, 0);
    lemma_quoted_scan_escape(s, p + 1, text, Seq::empty());
    assert(Seq::<u8>::empty() + text =~= text);
}

/// Whether the bytes `e` are the writing of the field `f`.
pub open spec fn encodes(e: Seq<u8>, f: FieldView) -> bool {
    if f.quoted {
        e == quoted_text(f.text)
    } else {
        e == f.text && is_plain(f.text)
    }
}

/// A written field is read as the field it writes.
proof fn lemma_field(s: Seq<u8>, p: int, e: Seq<u8>, f: FieldView)
    requires
        encodes(e, f),
        occurs(s, p, e),
        field_stop(s, p + e.len()),
    ensures
        field_at(s, p) == Some((f, p + e.len())),
{
    if f.quoted {
        lemma_field_quoted(s, p, f.text);
    } else {
        lemma_field_plain(s, p, f.text);
    }
}

/// The fields that a record of the given fields is read as: a record
/// of no fields is read as one empty field.
pub open spec fn record_fields(fv: Seq<FieldView>) -> Seq<FieldView> {
    if fv.len() == 0 {
        seq![FieldView { text: Seq::empty(), quoted: false }]
    } else {
        fv
    }
}

/// A written record is read as its fields, to the end of its line.
proof fn lemma_record(s: Seq<u8>, p: int, enc: Seq<Seq<u8>>, fv: Seq<FieldView>, acc: Seq<FieldView>)
    requires
        enc.len() == fv.len(),
        forall|i: int| 0 <= i < enc.len() ==> encodes(#[trigger] enc[i], fv[i]),
        occurs(s, p, record_text(enc)),
    ensures
        record_scan(s, p, acc) == Some((acc + record_fields(fv), p + record_text(enc).len())),
    decreases enc.len(),
{
    let end = seq![LINE_FEED];
    if enc.len() == 0 {
        lemma_occurs_at(s, p, end, 0);
        let none = Seq::<u8>::empty();
        assert(s.subrange(p, p) =~= none);
        lemma_field_plain(s, p, none);
        assert(acc.push(FieldView { text: none, quoted: false }) =~= acc + record_fields(fv));
    } else if enc.len() == 1 {
        lemma_occurs_split(s, p, enc[0], end);
        lemma_occurs_at(s, p + enc[0].len(), end, 0);
        assert(encodes(enc[0], fv[0]));
        lemma_field(s, p, enc[0], fv[0]);
        assert(acc.push(fv[0]) =~= acc + fv);
    } else {
        let sep = seq![COMMA];
        let tail = record_text(enc.skip(1));
        assert(record_text(enc) =~= enc[0] + (sep + tail));
        lemma_occurs_split(s, p, enc[0], sep + tail);
        lemma_occurs_split(s, p + enc[0].len(), sep, tail);
        lemma_occurs_at(s, p + enc[0].len(), sep, 0);
        assert(encodes(enc[0], fv[0]));
        lemma_field(s, p, enc[0], fv[0]);
        assert forall|i: int| 0 <= i < enc.skip(1).len() implies encodes(
            #[trigger] enc.skip(1)[i],
            fv.skip(1)[i],
        ) by {
            assert(encodes(enc[i + 1], fv[i + 1]));
        }
        lemma_record(s, p + enc[0].len() + 1, enc.skip(1), fv.skip(1), acc.push(fv[0]));
        assert(acc.push(fv[0]) + fv.skip(1) =~= acc + fv);
    }
}

/// The header of `t` as it is read.
pub open spec fn header_fields(t: TableView) -> Seq<FieldView> {
    Seq::new(
        t.columns.len(),
        |j: int| FieldView { text: t.columns[j].name, quoted: must_quote(t.columns[j].name) },
    )
}

/// Row `i` of `t` as it is read.
pub open spec fn row_fields(t: TableView, i: int) -> Seq<FieldView> {
    Seq::new(
        t.columns.len(),
        |j: int| FieldView { text: text_of_datum(t.columns[j].cells[i]), quoted: false },
    )
}

/// The cells of row `i` of `t`.
pub open spec fn row_cells(t: TableView, i: int) -> Seq<Datum> {
    Seq::new(t.columns.len(), |j: int| t.columns[j].cells[i])
}

/// The rows of `t` from row `i` on.
pub open spec fn rows_from(t: TableView, i: int) -> Seq<Seq<Datum>> {
    Seq::new((t.rows - i) as nat, |k: int| row_cells(t, i + k))
}

/// The name of column `j` is found at place `j` of the header.
proof fn lemma_header_index(t: TableView, j: int)
    requires
        encodable(t),
        0 <= j < t.columns.len(),
    ensures
        field_index(record_fields(header_fields(t)), t.columns[j].name, 0) == j,
{
    let h = record_fields(header_fields(t));
    let name = t.columns[j].name;
    lemma_field_index(h, name, 0);
    let idx = field_index(h, name, 0);
    assert(h[j].text == name);
    if idx != j {
        assert(idx < j);
        assert(h[idx].text == t.columns[idx].name);
        assert(t.columns[idx].name != t.columns[j].name);
    }
}

/// A written row is read as the cells of the row.
proof fn lemma_row(t: TableView, i: int)
    requires
        encodable(t),
        0 <= i < t.rows,
    ensures
        first_bad(
            schema_of_table(t),
            record_fields(header_fields(t)),
            record_fields(row_fields(t, i)),
            0,
        ) == t.columns.len(),
        row_data(
            schema_of_table(t),
            record_fields(header_fields(t)),
            record_fields(row_fields(t, i)),
        ) == row_cells(t, i),
{
    let schema = schema_of_table(t);
    let h = record_fields(header_fields(t));
    let r = record_fields(row_fields(t, i));
    assert forall|j: int| 0 <= j < schema.len() implies datum_at(schema, h, r, j) == Some(
        t.columns[j].cells[i],
    ) by {
        lemma_header_index(t, j);
        assert(t.columns[j].cells.len() == t.rows);
        let d = t.columns[j].cells[i];
        assert(d.fits(t.columns[j].ty));
        assert(normal(d));
        lemma_datum_of_text(t.columns[j].ty, d);
        assert(r[j] == FieldView { text: text_of_datum(d), quoted: false });
    }
    lemma_first_bad(schema, h, r, 0);
    assert(row_data(schema, h, r) =~= row_cells(t, i));
}

/// The written rows are read as the rows of the table.
proof fn lemma_rows(s: Seq<u8>, p: int, t: TableView, i: int, acc: Seq<Seq<Datum>>)
    requires
        encodable(t),
        0 <= i <= t.rows,
        occurs(s, p, rows_text(t, i)),
        p + rows_text(t, i).len() == s.len(),
    ensures
        rows_scan(
            s,
            p,
            schema_of_table(t),
            record_fields(header_fields(t)),
            (i + 1) as nat,
            acc,
        ) == Ok::<Seq<Seq<Datum>>, ErrorView>(acc + rows_from(t, i)),
    decreases t.rows - i,
{
    let schema = schema_of_table(t);
    let h = record_fields(header_fields(t));
    if i == t.rows {
        assert(acc + rows_from(t, i) =~= acc);
    } else {
        let line = record_text(row_texts(t, i));
        let rest = rows_text(t, i + 1);
        lemma_occurs_split(s, p, line, rest);
        let enc = row_texts(t, i);
        let fv = row_fields(t, i);
        assert forall|j: int| 0 <= j < enc.len() implies encodes(#[trigger] enc[j], fv[j]) by {
            lemma_text_plain(t.columns[j].cells[i]);
        }
        lemma_record(s, p, enc, fv, Seq::empty());
        assert(Seq::<FieldView>::empty() + record_fields(fv) =~= record_fields(fv));
        lemma_record_text_len(enc);
        lemma_row(t, i);
        let next = p + line.len();
        lemma_rows(s, next, t, i + 1, acc.push(row_cells(t, i)));
        assert(acc.push(row_cells(t, i)) + rows_from(t, i + 1) =~= acc + rows_from(t, i));
    }
}

/// A record takes one byte at least.
proof fn lemma_record_text_len(enc: Seq<Seq<u8>>)
    ensures
        record_text(enc).len() >= 1,
    decreases enc.len(),
{
    if enc.len() >= 2 {
        lemma_record_text_len(enc.skip(1));
    }
}

/// Decoding the reference writing of a table gives the table back.
pub proof fn lemma_decode_reference_csv(t: TableView)
    requires
        encodable(t),
    ensures
        decode_spec(reference_csv(t), schema_of_table(t), 0) == Ok::<TableView, ErrorView>(t),
{
    let s = reference_csv(t);
    let schema = schema_of_table(t);
    let head = record_text(header_texts(t));
    let body = rows_text(t, 0);
    let enc = header_texts(t);
    let fv = header_fields(t);
    let h = record_fields(fv);
    lemma_record_text_len(enc);
    assert(s.subrange(0, s.len() as int) =~= s);
    assert(occurs(s, 0, head + body));
    lemma_occurs_split(s, 0, head, body);
    assert forall|j: int| 0 <= j < enc.len() implies encodes(#[trigger] enc[j], fv[j]) by {}
    lemma_record(s, 0, enc, fv, Seq::empty());
    assert(Seq::<FieldView>::empty() + h =~= h);
    assert(record_at(s, 0) == Some((h, head.len() as int)));
    assert forall|j: int| 0 <= j < schema.len() implies field_index(h, schema[j].name, 0)
        < h.len() by {
        lemma_header_index(t, j);
    }
    lemma_all_present(schema, h, 0);
    lemma_rows(s, head.len() as int, t, 0, Seq::empty());
    let rows = rows_from(t, 0);
    assert(Seq::<Seq<Datum>>::empty() + rows =~= rows);
    let back = table_of_rows(schema, rows);
    assert forall|j: int| 0 <= j < t.columns.len() implies back.columns[j] == t.columns[j] by {
        assert(t.columns[j].cells.len() == t.rows);
        assert(back.columns[j].cells =~= t.columns[j].cells);
    }
    assert(back.columns =~= t.columns);
}

/// When every declared column is found, none is missing.
proof fn lemma_all_present(schema: Seq<ColumnSpecView>, header: Seq<FieldView>, from: int)
    requires
        0 <= from <= schema.len(),
        forall|j: int|
            0 <= j < schema.len() ==> field_index(header, (#[trigger] schema[j]).name, 0)
                < header.len(),
    ensures
        first_missing(schema, header, from) == schema.len(),
    decreases schema.len() - from,
{
    if from < schema.len() {
        assert(field_index(header, schema[from].name, 0) < header.len());
        lemma_all_present(schema, header, from + 1);
    }
}

/// Whether `row` has one cell for each column of `schema`, each
/// fitting its column and in normal form.
pub open spec fn good_row(schema: Seq<ColumnSpecView>, row: Seq<Datum>) -> bool {
    &&& row.len() == schema.len()
    &&& forall|j: int|
        0 <= j < row.len() ==> (#[trigger] row[j]).fits(schema[j].ty) && normal(row[j])
}

/// Every row that is read fits the schema and is in normal form.
proof fn lemma_rows_scan_good(
    s: Seq<u8>,
    p: int,
    schema: Seq<ColumnSpecView>,
    header: Seq<FieldView>,
    record: nat,
    acc: Seq<Seq<Datum>>,
)
    requires
        forall|r: int| 0 <= r < acc.len() ==> good_row(schema, #[trigger] acc[r]),
    ensures
        rows_scan(s, p, schema, header, record, acc) matches Ok(rows) ==> forall|r: int|
            0 <= r < rows.len() ==> good_row(schema, #[trigger] rows[r]),
    decreases s.len() - p,
{
    if 0 <= p < s.len() {
        match record_at(s, p) {
            None => {},
            Some((fields, next)) => {
                if fields.len() == header.len() && first_bad(schema, header, fields, 0)
                    >= schema.len() {
                    lemma_record_scan(s, p, Seq::empty());
                    lemma_first_bad(schema, header, fields, 0);
                    let row = row_data(schema, header, fields);
                    assert forall|j: int| 0 <= j < row.len() implies (#[trigger] row[j]).fits(
                        schema[j].ty,
                    ) && normal(row[j]) by {
                        let f = fields[field_index(header, schema[j].name, 0)];
                        assert(datum_at(schema, header, fields, j) is Some);
                        lemma_datum_of_field_fits(schema[j].ty, f);
                        lemma_datum_normal(schema[j].ty, f);
                    }
                    let more = acc.push(row);
                    assert forall|r: int| 0 <= r < more.len() implies good_row(
                        schema,
                        #[trigger] more[r],
                    ) by {
                        if r < acc.len() {
                            assert(more[r] == acc[r]);
                        }
                    }
                    lemma_rows_scan_good(s, next, schema, header, record + 1, more);
                }
            },
        }
    }
}

/// What the decoder gives can be written and read back: a decoded
/// table has the schema it was decoded against, keeps the row-count
/// invariant, and holds cells that fit their columns, in normal form.
pub proof fn lemma_decoded_is_encodable(s: Seq<u8>, schema: Seq<ColumnSpecView>, skip: nat)
    requires
        schema_wf(schema),
    ensures
        decode_spec(s, schema, skip) matches Ok(t) ==> encodable(t) && schema_of_table(t)
            == schema && decode_spec(reference_csv(t), schema, 0) == Ok::<TableView, ErrorView>(t),
{
    if decode_spec(s, schema, skip) is Ok {
        let t = decode_spec(s, schema, skip)->Ok_0;
        let begin = crate::decode::skip_lines(s, 0, skip);
        let head = if begin < s.len() {
            record_at(s, begin)
        } else {
            Some((Seq::<FieldView>::empty(), begin))
        };
        let (header, after) = match head {
            Some(found) => found,
            None => (Seq::<FieldView>::empty(), begin),
        };
        lemma_rows_scan_good(s, after, schema, header, 1, Seq::empty());
        let rows = rows_scan(s, after, schema, header, 1, Seq::empty())->Ok_0;
        assert(t == table_of_rows(schema, rows));
        assert forall|j: int, i: int|
            0 <= j < t.columns.len() && 0 <= i < t.columns[j].cells.len() implies (
        #[trigger] t.columns[j].cells[i]).fits(t.columns[j].ty) && normal(t.columns[j].cells[i]) by {
            assert(good_row(schema, rows[i]));
            assert(t.columns[j].cells[i] == rows[i][j]);
        }
        assert forall|a: int, b: int| 0 <= a < b < t.columns.len() implies (
        #[trigger] t.columns[a]).name != (#[trigger] t.columns[b]).name by {
            assert(schema[a].name != schema[b].name);
        }
        assert(schema_of_table(t) =~= schema);
        lemma_decode_reference_csv(t);
    }
}

/// Appends a natural number in base ten.
fn push_nat(out: &mut Vec<u8>, n: u64)
    ensures
        final(out)@ == old(out)@ + format_nat(n as nat),
    decreases n,
{
    if n < 10 {
        out.push(48 + n as u8);
        proof {
            assert(out@ =~= old(out)@ + format_nat(n as nat));
        }
    } else {
        push_nat(out, n / 10);
        out.push(48 + (n % 10) as u8);
        proof {
            assert(out@ =~= old(out)@ + format_nat(n as nat));
        }
    }
}

/// Appends an integer in base ten.
fn push_int(out: &mut Vec<u8>, v: i64)
    ensures
        final(out)@ == old(out)@ + format_int(v as int),
{
    if v < 0 {
        out.push(MINUS);
        let m: u64 = (-(v + 1)) as u64 + 1;
        push_nat(out, m);
        proof {
            assert(out@ =~= old(out)@ + format_int(v as int));
        }
    } else {
        push_nat(out, v as u64);
    }
}

/// Appends the text of a cell.
fn push_datum(out: &mut Vec<u8>, d: Datum)
    ensures
        final(out)@ == old(out)@ + text_of_datum(d),
{
    match d {
        Datum::Null => {
            proof {
                assert(out@ =~= old(out)@ + text_of_datum(d));
            }
        },
        Datum::Int(v) => {
            push_int(out, v);
        },
        Datum::Float(x) => {
            if x.negative {
                out.push(MINUS);
            }
            push_nat(out, x.mantissa);
            out.push(101);
            push_int(out, x.exponent as i64);
            proof {
                assert(out@ =~= old(out)@ + format_decimal(x));
            }
        },
        Datum::Bool(b) => {
            if b {
                out.push(116);
                out.push(114);
                out.push(117);
                out.push(101);
            } else {
                out.push(102);
                out.push(97);
                out.push(108);
                out.push(115);
                out.push(101);
            }
            proof {
                assert(out@ =~= old(out)@ + format_bool(b));
            }
        },
    }
}

/// Whether a name must be quoted in the header.
fn needs_quotes(name: &[u8]) -> (r: bool)
    ensures
        r == must_quote(name@),
{
    if name.len() == 0 {
        return true;
    }
    let mut k: usize = 0;
    while k < name.len()
        invariant
            k <= name.len(),
            forall|i: int| 0 <= i < k ==> plain_byte(#[trigger] name@[i]),
        decreases name.len() - k,
    {
        let b: u8 = name[k];
        if b == COMMA || b == QUOTE || b == LINE_FEED || b == CARRIAGE_RETURN {
            return true;
        }
        k += 1;
    }
    false
}

/// Appends a name as a field of the header.
fn push_name(out: &mut Vec<u8>, name: &[u8])
    ensures
        final(out)@ == old(out)@ + name_text(name@),
{
    if needs_quotes(name) {
        out.push(QUOTE);
        let ghost start = out@;
        let mut k: usize = 0;
        proof {
            assert(name@.skip(0) =~= name@);
        }
        while k < name.len()
            invariant
                k <= name.len(),
                out@ + escape(name@.skip(k as int)) == start + escape(name@),
            decreases name.len() - k,
        {
            let b: u8 = name[k];
            proof {
                let rest = name@.skip(k as int);
                assert(rest[0] == b);
                assert(rest.skip(1) =~= name@.skip(k + 1));
                let tail = escape(name@.skip(k + 1));
                if b == QUOTE {
                    assert(out@ + (seq![QUOTE, QUOTE] + tail) =~= out@.push(QUOTE).push(QUOTE)
                        + tail);
                } else {
                    assert(out@ + (seq![b] + tail) =~= out@.push(b) + tail);
                }
            }
            if b == QUOTE {
                out.push(QUOTE);
                out.push(QUOTE);
            } else {
                out.push(b);
            }
            k += 1;
        }
        proof {
            assert(escape(name@.skip(k as int)) =~= Seq::<u8>::empty());
            assert(out@ + Seq::<u8>::empty() =~= out@);
        }
        out.push(QUOTE);
        proof {
            assert(out@ =~= old(out)@ + quoted_text(name@));
        }
    } else {
        let mut k: usize = 0;
        proof {
            assert(old(out)@ + name@.subrange(0, 0) =~= old(out)@);
        }
        while k < name.len()
            invariant
                k <= name.len(),
                out@ == old(out)@ + name@.subrange(0, k as int),
            decreases name.len() - k,
        {
            out.push(name[k]);
            proof {
                assert(old(out)@ + name@.subrange(0, k + 1) =~= (old(out)@ + name@.subrange(
                    0,
                    k as int,
                )).push(name@[k as int]));
            }
            k += 1;
        }
        proof {
            assert(name@.subrange(0, k as int) =~= name@);
        }
    }
}

/// The fields of the header, or of a row.
pub open spec fn line_texts(t: TableView, row: Option<usize>) -> Seq<Seq<u8>> {
    match row {
        None => header_texts(t),
        Some(i) => row_texts(t, i as int),
    }
}

/// Appends the header, or a row, as a record.
fn push_record(out: &mut Vec<u8>, table: &Table, row: Option<usize>)
    requires
        table.wf(),
        row matches Some(i) ==> i < table.rows,
    ensures
        final(out)@ == old(out)@ + record_text(line_texts(table@, row)),
{
    let ghost texts = line_texts(table@, row);
    let ghost want = old(out)@ + record_text(texts);
    let n = table.columns.len();
    if n == 0 {
        out.push(LINE_FEED);
        proof {
            assert(out@ =~= want);
        }
        return;
    }
    let mut j: usize = 0;
    proof {
        assert(texts.skip(0) =~= texts);
    }
    while j < n
        invariant
            j <= n,
            n == table.columns@.len(),
            n == texts.len(),
            n > 0,
            table.wf(),
            row matches Some(i) ==> i < table.rows,
            texts == line_texts(table@, row),
            j < n ==> out@ + record_text(texts.skip(j as int)) == want,
            j == n ==> out@ == want,
        decreases n - j,
    {
        let c = &table.columns[j];
        let ghost before = out@;
        proof {
            assert(table@.columns[j as int] == c@);
            assert(c.wf() && c.valid@.len() == table.rows);
        }
        match row {
            None => {
                push_name(out, c.name.as_slice());
            },
            Some(i) => {
                let d = c.get(i);
                push_datum(out, d);
            },
        }
        proof {
            let rest = texts.skip(j as int);
            assert(rest[0] == texts[j as int]);
            assert(out@ == before + texts[j as int]);
            assert(rest.skip(1) =~= texts.skip(j + 1));
            if j + 1 < n {
                let tail = record_text(texts.skip(j + 1));
                assert(before + (rest[0] + seq![COMMA] + tail) =~= out@.push(COMMA) + tail);
            } else {
                assert(before + (rest[0] + seq![LINE_FEED]) =~= out@.push(LINE_FEED));
            }
        }
        if j + 1 < n {
            out.push(COMMA);
        } else {
            out.push(LINE_FEED);
        }
        j += 1;
    }
}

/// Writes `table` as delimited text: the header, then one record per
/// row, every record ended by a line feed.  An empty cell is written
/// as an empty field, a name is quoted where it must be.
pub fn encode_reference_csv(table: &Table) -> (r: Vec<u8>)
    requires
        table.wf(),
    ensures
        r@ == reference_csv(table@),
{
    let mut out: Vec<u8> = Vec::new();
    push_record(&mut out, table, None);
    let ghost head = out@;
    proof {
        assert(head =~= record_text(header_texts(table@)));
    }
    let mut i: usize = 0;
    while i < table.rows
        invariant
            i <= table.rows,
            table.wf(),
            out@ + rows_text(table@, i as int) == head + rows_text(table@, 0),
        decreases table.rows - i,
    {
        let ghost before = out@;
        push_record(&mut out, table, Some(i));
        proof {
            let line = record_text(row_texts(table@, i as int));
            let rest = rows_text(table@, i + 1);
            assert(before + (line + rest) =~= (before + line) + rest);
        }
        i += 1;
    }
    proof {
        assert(rows_text(table@, i as int) =~= Seq::<u8>::empty());
        assert(out@ + Seq::<u8>::empty() =~= out@);
    }
    out
}

} // verus!
