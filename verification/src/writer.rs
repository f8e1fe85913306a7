//! The writer: a table as the bytes of a columnar file.
//!
//! All numbers are little-endian.  The file is
//!
//! ```text
//! file        = magic version columns declaration* groups group*
//! magic       = "CTBL"
//! version     = 1 (2 bytes)
//! columns     = number of columns (8 bytes)
//! declaration = length of name (8 bytes), name, type tag (1 byte)
//! groups      = number of row groups (4 bytes), always 1
//! group       = number of rows (8 bytes), chunk*     one chunk per column
//! chunk       = null count (8 bytes), range, block of null marks,
//!               block of values
//! range       = 0                                    when every cell is empty
//!             | 1, smallest value, largest value
//! block       = length unpacked (8 bytes), length packed (8 bytes),
//!               packed bytes
//! ```
//!
//! A null mark is one byte per row, 1 for an empty cell.  A value takes
//! 4 bytes (`i32`), 8 bytes (`i64`), 13 bytes (a decimal: sign,
//! mantissa, exponent) or 1 byte (`bool`); an empty cell takes the same
//! room, filled with zeros.  Blocks are packed by run length: each run
//! of up to 255 equal bytes becomes the length of the run and the byte.

use vstd::prelude::*;
use crate::schema::ColumnType;
use crate::table::{datum_lt, Column, ColumnView, Datum, Table, TableView};

verus! {

/// The file format's version.
pub const FORMAT_VERSION: u16 = 1;

/// `v` in `width` bytes, the lowest first.
pub open spec fn le_bytes(v: nat, width: nat) -> Seq<u8>
    decreases width,
{
    if width == 0 {
        Seq::empty()
    } else {
        seq![(v % 256) as u8] + le_bytes(v / 256, (width - 1) as nat)
    }
}

/// The two's complement of `v`, as a natural number below `modulus`.
pub open spec fn unsigned(v: int, modulus: nat) -> nat {
    if v >= 0 {
        v as nat
    } else {
        (v + modulus) as nat
    }
}

/// The four bytes that open every file.
pub open spec fn magic() -> Seq<u8> {
    seq![67u8, 84u8, 66u8, 76u8]
}

/// The tag that stands for a type in the file.
pub open spec fn type_tag(ty: ColumnType) -> u8 {
    match ty {
        ColumnType::Int32 => 1,
        ColumnType::Int64 => 2,
        ColumnType::Float32 => 3,
        ColumnType::Float64 => 4,
        ColumnType::Boolean => 5,
    }
}

/// The number of bytes that a value of a type takes.
pub open spec fn value_width(ty: ColumnType) -> nat {
    match ty {
        ColumnType::Int32 => 4,
        ColumnType::Int64 => 8,
        ColumnType::Float32 => 13,
        ColumnType::Float64 => 13,
        ColumnType::Boolean => 1,
    }
}

/// The bytes of one cell of a column of type `ty`.
pub open spec fn value_bytes(ty: ColumnType, d: Datum) -> Seq<u8> {
    match d {
        Datum::Null => Seq::new(value_width(ty), |i: int| 0u8),
        Datum::Int(v) => if ty == ColumnType::Int32 {
            le_bytes(unsigned(v as int, 0x1_0000_0000), 4)
        } else {
            le_bytes(unsigned(v as int, 0x1_0000_0000_0000_0000), 8)
        },
        Datum::Float(x) => seq![
            if x.negative {
                1u8
            } else {
                0u8
            },
        ] + le_bytes(x.mantissa as nat, 8) + le_bytes(unsigned(x.exponent as int, 0x1_0000_0000), 4),
        Datum::Bool(b) => seq![
            if b {
                1u8
            } else {
                0u8
            },
        ],
    }
}

/// The bytes of all cells of a column, row after row.
pub open spec fn values_bytes(ty: ColumnType, cells: Seq<Datum>) -> Seq<u8>
    decreases cells.len(),
{
    if cells.len() == 0 {
        Seq::empty()
    } else {
        values_bytes(ty, cells.drop_last()) + value_bytes(ty, cells.last())
    }
}

/// The null marks of a column: one byte per row, 1 for an empty cell.
pub open spec fn null_marks(cells: Seq<Datum>) -> Seq<u8> {
    Seq::new(
        cells.len(),
        |i: int|
            if cells[i] is Null {
                1u8
            } else {
                0u8
            },
    )
}

/// The number of empty cells.
pub open spec fn null_count(cells: Seq<Datum>) -> nat
    decreases cells.len(),
{
    if cells.len() == 0 {
        0
    } else {
        null_count(cells.drop_last()) + if cells.last() is Null {
            1nat
        } else {
            0nat
        }
    }
}

/// The smallest value of a column, the first of several that are equal
/// in the order; `Null` when every cell is empty.
pub open spec fn min_cell(cells: Seq<Datum>) -> Datum
    decreases cells.len(),
{
    if cells.len() == 0 {
        Datum::Null
    } else {
        let m = min_cell(cells.drop_last());
        let c = cells.last();
        if c is Null {
            m
        } else if m is Null || c.lt(m) {
            c
        } else {
            m
        }
    }
}

/// The largest value of a column, the first of several that are equal
/// in the order; `Null` when every cell is empty.
pub open spec fn max_cell(cells: Seq<Datum>) -> Datum
    decreases cells.len(),
{
    if cells.len() == 0 {
        Datum::Null
    } else {
        let m = max_cell(cells.drop_last());
        let c = cells.last();
        if c is Null {
            m
        } else if m is Null || m.lt(c) {
            c
        } else {
            m
        }
    }
}

/// The length of the run of bytes equal to `s[0]` at the head of `s`,
/// counted from `k` on and cut at 255.
pub open spec fn run_from(s: Seq<u8>, k: int) -> int
    decreases s.len() - k,
{
    if 0 < k < s.len() && k < 255 && s[k] == s[0] {
        run_from(s, k + 1)
    } else {
        k
    }
}

/// `s` packed by run length.
pub open spec fn pack(s: Seq<u8>) -> Seq<u8>
    decreases s.len(),
    via pack_decreases
{
    if s.len() == 0 {
        Seq::empty()
    } else {
        let r = run_from(s, 1);
        seq![r as u8, s[0]] + pack(s.skip(r))
    }
}

/// A run is not empty, so what is left to pack gets shorter.
#[via_fn]
proof fn pack_decreases(s: Seq<u8>) {
    if s.len() != 0 {
        lemma_run_from(s, 1);
    }
}

/// What packed bytes stand for: each pair is a length and the byte to
/// repeat.
pub open spec fn unpack(c: Seq<u8>) -> Seq<u8>
    decreases c.len(),
{
    if c.len() < 2 {
        Seq::empty()
    } else {
        Seq::new(c[0] as nat, |i: int| c[1]) + unpack(c.skip(2))
    }
}

/// A run is at least `k` long, at most 255 and at most `s`, and all its
/// bytes from `k` on are equal to the first.
pub proof fn lemma_run_from(s: Seq<u8>, k: int)
    requires
        1 <= k <= s.len(),
        k <= 255,
    ensures
        k <= run_from(s, k) <= s.len(),
        run_from(s, k) <= 255,
        forall|i: int| k <= i < run_from(s, k) ==> #[trigger] s[i] == s[0],
    decreases s.len() - k,
{
    if k < s.len() && k < 255 && s[k] == s[0] {
        lemma_run_from(s, k + 1);
    }
}

/// Packing loses nothing: unpacking gives the bytes back.
pub proof fn lemma_unpack_pack(s: Seq<u8>)
    ensures
        unpack(pack(s)) == s,
    decreases s.len(),
{
    if s.len() == 0 {
        assert(pack(s).len() == 0);
    } else {
        let r = run_from(s, 1);
        lemma_run_from(s, 1);
        let rest = s.skip(r);
        lemma_unpack_pack(rest);
        let c = pack(s);
        assert(c == seq![r as u8, s[0]] + pack(rest));
        assert(c.skip(2) =~= pack(rest));
        assert(c[0] == r as u8 && c[1] == s[0]);
        assert(unpack(c) =~= s);
    }
}

/// A block: the bytes `raw`, packed, behind their two lengths.
pub open spec fn block(raw: Seq<u8>) -> Seq<u8> {
    le_bytes(raw.len(), 8) + le_bytes(pack(raw).len(), 8) + pack(raw)
}

/// The range of a column: its smallest and largest value, if it has
/// any value.
pub open spec fn range_bytes(ty: ColumnType, cells: Seq<Datum>) -> Seq<u8> {
    if min_cell(cells) is Null {
        seq![0u8]
    } else {
        seq![1u8] + value_bytes(ty, min_cell(cells)) + value_bytes(ty, max_cell(cells))
    }
}

/// The chunk of a column.
pub open spec fn chunk(c: ColumnView) -> Seq<u8> {
    le_bytes(null_count(c.cells), 8) + range_bytes(c.ty, c.cells) + block(null_marks(c.cells))
        + block(values_bytes(c.ty, c.cells))
}

/// The chunks of the columns, one after the other.
pub open spec fn chunks(columns: Seq<ColumnView>) -> Seq<u8>
    decreases columns.len(),
{
    if columns.len() == 0 {
        Seq::empty()
    } else {
        chunks(columns.drop_last()) + chunk(columns.last())
    }
}

/// The declaration of a column: its name and type.
pub open spec fn declaration(c: ColumnView) -> Seq<u8> {
    le_bytes(c.name.len(), 8) + c.name + seq![type_tag(c.ty)]
}

/// The declarations of the columns, one after the other.
pub open spec fn declarations(columns: Seq<ColumnView>) -> Seq<u8>
    decreases columns.len(),
{
    if columns.len() == 0 {
        Seq::empty()
    } else {
        declarations(columns.drop_last()) + declaration(columns.last())
    }
}

/// The bytes of the file that holds `t`.
pub open spec fn file_bytes(t: TableView) -> Seq<u8> {
    magic() + le_bytes(1, 2) + le_bytes(t.columns.len(), 8) + declarations(t.columns) + le_bytes(
        1,
        4,
    ) + le_bytes(t.rows, 8) + chunks(t.columns)
}

/// The smallest value is `Null` exactly when every cell is empty;
/// otherwise it is a value of the column that no value comes before.
/// The same holds of the largest value, which no value comes after.
pub proof fn lemma_range(cells: Seq<Datum>)
    ensures
        (min_cell(cells) is Null) == (forall|i: int| 0 <= i < cells.len() ==> cells[i] is Null),
        (max_cell(cells) is Null) == (min_cell(cells) is Null),
        !(min_cell(cells) is Null) ==> cells.contains(min_cell(cells)) && cells.contains(
            max_cell(cells),
        ),
        forall|i: int|
            0 <= i < cells.len() && !(cells[i] is Null) ==> !(#[trigger] cells[i]).lt(
                min_cell(cells),
            ) && !max_cell(cells).lt(cells[i]),
    decreases cells.len(),
{
    if cells.len() > 0 {
        let front = cells.drop_last();
        lemma_range(front);
        let c = cells.last();
        assert forall|i: int| 0 <= i < front.len() implies front[i] == cells[i] by {}
        if !(min_cell(front) is Null) {
            let a = choose|a: int| 0 <= a < front.len() && front[a] == min_cell(front);
            assert(cells[a] == min_cell(front));
            let b = choose|b: int| 0 <= b < front.len() && front[b] == max_cell(front);
            assert(cells[b] == max_cell(front));
        }
        assert(cells[cells.len() - 1] == c);
        if !(min_cell(cells) is Null) {
            assert(cells.contains(min_cell(cells)));
            assert(cells.contains(max_cell(cells)));
        }
        assert forall|i: int| 0 <= i < cells.len() && !(cells[i] is Null) implies !(
        #[trigger] cells[i]).lt(min_cell(cells)) && !max_cell(cells).lt(cells[i]) by {
            if i < front.len() {
                assert(front[i] == cells[i]);
            }
        }
    }
}

/// Appends `v` in `width` bytes, the lowest first.
fn push_le(out: &mut Vec<u8>, v: u64, width: usize)
    ensures
        final(out)@ == old(out)@ + le_bytes(v as nat, width as nat),
{
    let mut cur: u64 = v;
    let mut k: usize = 0;
    proof {
        assert(old(out)@ + Seq::<u8>::empty() =~= old(out)@);
    }
    let ghost want = old(out)@ + le_bytes(v as nat, width as nat);
    while k < width
        invariant
            k <= width,
            want == out@ + le_bytes(cur as nat, (width - k) as nat),
        decreases width - k,
    {
        let b: u8 = (cur % 256) as u8;
        proof {
            let rest = le_bytes((cur / 256) as nat, (width - k - 1) as nat);
            assert(le_bytes(cur as nat, (width - k) as nat) == seq![b] + rest);
            assert(out@ + (seq![b] + rest) =~= out@.push(b) + rest);
        }
        out.push(b);
        cur = cur / 256;
        k += 1;
    }
    proof {
        assert(out@ + Seq::<u8>::empty() =~= out@);
    }
}

/// Appends the bytes of `src`.
fn append(out: &mut Vec<u8>, src: &[u8])
    ensures
        final(out)@ == old(out)@ + src@,
{
    let mut k: usize = 0;
    proof {
        assert(old(out)@ + src@.subrange(0, 0) =~= old(out)@);
    }
    while k < src.len()
        invariant
            k <= src.len(),
            out@ == old(out)@ + src@.subrange(0, k as int),
        decreases src.len() - k,
    {
        out.push(src[k]);
        proof {
            assert(old(out)@ + src@.subrange(0, k + 1) =~= (old(out)@ + src@.subrange(
                0,
                k as int,
            )).push(src@[k as int]));
        }
        k += 1;
    }
    proof {
        assert(src@.subrange(0, k as int) =~= src@);
    }
}

/// The tag that stands for a type in the file.
fn tag_of(ty: ColumnType) -> (r: u8)
    ensures
        r == type_tag(ty),
{
    match ty {
        ColumnType::Int32 => 1,
        ColumnType::Int64 => 2,
        ColumnType::Float32 => 3,
        ColumnType::Float64 => 4,
        ColumnType::Boolean => 5,
    }
}

/// The number of bytes that a value of a type takes.
fn width_of(ty: ColumnType) -> (r: usize)
    ensures
        r == value_width(ty),
{
    match ty {
        ColumnType::Int32 => 4,
        ColumnType::Int64 => 8,
        ColumnType::Float32 => 13,
        ColumnType::Float64 => 13,
        ColumnType::Boolean => 1,
    }
}

/// The two's complement of a 64-bit integer.
fn to_unsigned64(v: i64) -> (r: u64)
    ensures
        r == unsigned(v as int, 0x1_0000_0000_0000_0000),
{
    if v >= 0 {
        v as u64
    } else {
        (v - i64::MIN) as u64 + 0x8000_0000_0000_0000u64
    }
}

/// The two's complement of a 32-bit integer.
fn to_unsigned32(v: i32) -> (r: u64)
    ensures
        r == unsigned(v as int, 0x1_0000_0000),
{
    if v >= 0 {
        v as u64
    } else {
        (v - i32::MIN) as u64 + 0x8000_0000u64
    }
}

/// Appends the bytes of one cell.
fn push_value(out: &mut Vec<u8>, ty: ColumnType, d: Datum)
    requires
        d.fits(ty),
    ensures
        final(out)@ == old(out)@ + value_bytes(ty, d),
{
    match d {
        Datum::Null => {
            let w = width_of(ty);
            let mut k: usize = 0;
            proof {
                assert(old(out)@ + Seq::new(0, |i: int| 0u8) =~= old(out)@);
            }
            while k < w
                invariant
                    k <= w,
                    out@ == old(out)@ + Seq::new(k as nat, |i: int| 0u8),
                decreases w - k,
            {
                out.push(0);
                proof {
                    assert(old(out)@ + Seq::new((k + 1) as nat, |i: int| 0u8) =~= (old(out)@
                        + Seq::new(k as nat, |i: int| 0u8)).push(0u8));
                }
                k += 1;
            }
        },
        Datum::Int(v) => match ty {
            ColumnType::Int32 => {
                push_le(out, to_unsigned32(v as i32), 4);
            },
            _ => {
                push_le(out, to_unsigned64(v), 8);
            },
        },
        Datum::Float(x) => {
            let sign: u8 = if x.negative {
                1
            } else {
                0
            };
            out.push(sign);
            push_le(out, x.mantissa, 8);
            push_le(out, to_unsigned32(x.exponent), 4);
            proof {
                assert(out@ =~= old(out)@ + (seq![sign] + le_bytes(x.mantissa as nat, 8) + le_bytes(
                    unsigned(x.exponent as int, 0x1_0000_0000),
                    4,
                )));
            }
        },
        Datum::Bool(b) => {
            let byte: u8 = if b {
                1
            } else {
                0
            };
            out.push(byte);
            proof {
                assert(out@ =~= old(out)@ + seq![byte]);
            }
        },
    }
}

/// Packs bytes by run length.
pub fn pack_bytes(raw: &[u8]) -> (r: Vec<u8>)
    ensures
        r@ == pack(raw@),
{
    let mut out: Vec<u8> = Vec::new();
    let mut p: usize = 0;
    proof {
        assert(raw@.skip(0) =~= raw@);
        assert(out@ + pack(raw@) =~= pack(raw@));
    }
    while p < raw.len()
        invariant
            p <= raw.len(),
            out@ + pack(raw@.skip(p as int)) == pack(raw@),
        decreases raw.len() - p,
    {
        let ghost rest = raw@.skip(p as int);
        let b: u8 = raw[p];
        let mut r: usize = 1;
        while r < raw.len() - p && r < 255 && raw[p + r] == b
            invariant
                p < raw.len(),
                1 <= r <= raw.len() - p,
                r <= 255,
                rest == raw@.skip(p as int),
                b == rest[0],
                run_from(rest, 1) == run_from(rest, r as int),
            decreases raw.len() - p - r,
        {
            proof {
                assert(rest[r as int] == raw@[p + r]);
            }
            r += 1;
        }
        proof {
            if r < raw.len() - p {
                assert(rest[r as int] == raw@[p + r]);
            }
            assert(run_from(rest, 1) == r);
            assert(rest.skip(r as int) =~= raw@.skip(p + r));
            let tail = pack(raw@.skip(p + r));
            assert(pack(rest) == seq![r as u8, b] + tail);
            assert(out@ + (seq![r as u8, b] + tail) =~= out@.push(r as u8).push(b) + tail);
        }
        out.push(r as u8);
        out.push(b);
        p += r;
    }
    proof {
        assert(pack(raw@.skip(p as int)) =~= Seq::<u8>::empty());
        assert(out@ + Seq::<u8>::empty() =~= out@);
    }
    out
}

/// Appends a block: the lengths of `raw` unpacked and packed, and the
/// packed bytes.
fn push_block(out: &mut Vec<u8>, raw: &Vec<u8>)
    ensures
        final(out)@ == old(out)@ + block(raw@),
{
    let packed = pack_bytes(raw.as_slice());
    push_le(out, raw.len() as u64, 8);
    push_le(out, packed.len() as u64, 8);
    append(out, packed.as_slice());
    proof {
        assert(out@ =~= old(out)@ + block(raw@));
    }
}

/// The number of empty cells, the smallest and the largest value of a
/// column.
pub fn column_range(col: &Column) -> (r: (usize, Datum, Datum))
    requires
        col.wf(),
    ensures
        r.0 == null_count(col@.cells),
        r.1 == min_cell(col@.cells),
        r.2 == max_cell(col@.cells),
{
    let ghost cells = col@.cells;
    let mut nulls: usize = 0;
    let mut lo = Datum::Null;
    let mut hi = Datum::Null;
    let mut k: usize = 0;
    proof {
        assert(cells.subrange(0, 0) =~= Seq::<Datum>::empty());
    }
    while k < col.len()
        invariant
            k <= cells.len(),
            col.wf(),
            cells == col@.cells,
            nulls <= k,
            nulls == null_count(cells.subrange(0, k as int)),
            lo == min_cell(cells.subrange(0, k as int)),
            hi == max_cell(cells.subrange(0, k as int)),
        decreases cells.len() - k,
    {
        let c = col.get(k);
        proof {
            assert(cells.subrange(0, k + 1).drop_last() =~= cells.subrange(0, k as int));
            assert(cells.subrange(0, k + 1).last() == c);
        }
        match c {
            Datum::Null => {
                nulls += 1;
            },
            _ => {
                let lo_empty = match lo {
                    Datum::Null => true,
                    _ => false,
                };
                if lo_empty || datum_lt(c, lo) {
                    lo = c;
                }
                let hi_empty = match hi {
                    Datum::Null => true,
                    _ => false,
                };
                if hi_empty || datum_lt(hi, c) {
                    hi = c;
                }
            },
        }
        k += 1;
    }
    proof {
        assert(cells.subrange(0, k as int) =~= cells);
    }
    (nulls, lo, hi)
}

/// Appends the chunk of a column.
fn push_chunk(out: &mut Vec<u8>, col: &Column)
    requires
        col.wf(),
    ensures
        final(out)@ == old(out)@ + chunk(col@),
{
    let ghost cells = col@.cells;
    let ty = col.column_type();
    let (nulls, lo, hi) = column_range(col);
    push_le(out, nulls as u64, 8);
    proof {
        lemma_range(cells);
        col.lemma_cells_fit();
    }
    let any = match lo {
        Datum::Null => false,
        _ => true,
    };
    if any {
        out.push(1);
        push_value(out, ty, lo);
        push_value(out, ty, hi);
    } else {
        out.push(0);
    }
    proof {
        assert(out@ =~= old(out)@ + le_bytes(null_count(cells), 8) + range_bytes(ty, cells));
    }
    let mut marks: Vec<u8> = Vec::new();
    let mut values: Vec<u8> = Vec::new();
    let mut k: usize = 0;
    proof {
        assert(cells.subrange(0, 0) =~= Seq::<Datum>::empty());
        assert(marks@ =~= null_marks(cells.subrange(0, 0)));
    }
    while k < col.len()
        invariant
            k <= cells.len(),
            col.wf(),
            cells == col@.cells,
            ty == col@.ty,
            marks@ == null_marks(cells.subrange(0, k as int)),
            values@ == values_bytes(ty, cells.subrange(0, k as int)),
        decreases cells.len() - k,
    {
        let c = col.get(k);
        proof {
            col.lemma_cells_fit();
            assert(cells.subrange(0, k + 1).drop_last() =~= cells.subrange(0, k as int));
            assert(cells.subrange(0, k + 1).last() == c);
        }
        let mark: u8 = match c {
            Datum::Null => 1,
            _ => 0,
        };
        marks.push(mark);
        push_value(&mut values, ty, c);
        proof {
            assert(marks@ =~= null_marks(cells.subrange(0, k + 1)));
        }
        k += 1;
    }
    proof {
        assert(cells.subrange(0, k as int) =~= cells);
    }
    push_block(out, &marks);
    push_block(out, &values);
    proof {
        assert(out@ =~= old(out)@ + chunk(col@));
    }
}

/// The bytes of the file that holds `table`: the header, the schema as
/// the table has it, and one row group with a chunk for each column.
pub fn write_table(table: &Table) -> (r: Vec<u8>)
    requires
        table.wf(),
    ensures
        r@ == file_bytes(table@),
{
    let ghost t = table@;
    let mut out: Vec<u8> = Vec::new();
    out.push(67);
    out.push(84);
    out.push(66);
    out.push(76);
    proof {
        assert(out@ =~= magic());
    }
    push_le(&mut out, FORMAT_VERSION as u64, 2);
    push_le(&mut out, table.columns.len() as u64, 8);
    let ghost head = out@;
    let mut j: usize = 0;
    proof {
        assert(t.columns.subrange(0, 0) =~= Seq::<ColumnView>::empty());
        assert(head + declarations(t.columns.subrange(0, 0)) =~= head);
    }
    while j < table.columns.len()
        invariant
            j <= table.columns@.len(),
            t == table@,
            out@ == head + declarations(t.columns.subrange(0, j as int)),
        decreases table.columns@.len() - j,
    {
        let c = &table.columns[j];
        let ghost before = out@;
        push_le(&mut out, c.name.len() as u64, 8);
        append(&mut out, c.name.as_slice());
        out.push(tag_of(c.column_type()));
        proof {
            assert(t.columns[j as int] == c@);
            assert(t.columns.subrange(0, j + 1).drop_last() =~= t.columns.subrange(0, j as int));
            assert(t.columns.subrange(0, j + 1).last() == c@);
            assert(out@ =~= before + declaration(c@));
            assert(out@ =~= head + declarations(t.columns.subrange(0, j + 1)));
        }
        j += 1;
    }
    proof {
        assert(t.columns.subrange(0, j as int) =~= t.columns);
    }
    push_le(&mut out, 1, 4);
    push_le(&mut out, table.rows as u64, 8);
    let ghost head2 = out@;
    let mut j: usize = 0;
    proof {
        assert(t.columns.subrange(0, 0) =~= Seq::<ColumnView>::empty());
        assert(head2 + chunks(t.columns.subrange(0, 0)) =~= head2);
    }
    while j < table.columns.len()
        invariant
            j <= table.columns@.len(),
            t == table@,
            table.wf(),
            out@ == head2 + chunks(t.columns.subrange(0, j as int)),
        decreases table.columns@.len() - j,
    {
        let c = &table.columns[j];
        let ghost before = out@;
        push_chunk(&mut out, c);
        proof {
            assert(t.columns[j as int] == c@);
            assert(t.columns.subrange(0, j + 1).drop_last() =~= t.columns.subrange(0, j as int));
            assert(t.columns.subrange(0, j + 1).last() == c@);
            assert(out@ =~= head2 + chunks(t.columns.subrange(0, j + 1)));
        }
        j += 1;
    }
    proof {
        assert(t.columns.subrange(0, j as int) =~= t.columns);
    }
    out
}

} // verus!
