//! What the bytes of a file mean: the law that a written table can be
//! read back, so that no two tables are written alike.

use vstd::prelude::*;
use crate::bytes::{
    lemma_occurs_at, lemma_occurs_middle, lemma_occurs_skip, lemma_occurs_within, occurs,
};
use crate::decimal::Decimal;
use crate::schema::ColumnType;
use crate::table::{ColumnView, Datum, TableView};
use crate::writer::{
    block, chunk, chunks, declaration, declarations, file_bytes, le_bytes, lemma_range,
    lemma_run_from, lemma_unpack_pack, magic, max_cell, min_cell, null_count, null_marks, pack,
    range_bytes, run_from, type_tag, unpack, unsigned, value_bytes, value_width, values_bytes,
};

verus! {

/// 256 to the power `w`.
pub open spec fn pow256(w: nat) -> nat
    decreases w,
{
    if w == 0 {
        1
    } else {
        256 * pow256((w - 1) as nat)
    }
}

/// The number that the first `w` bytes of `s` write, the lowest byte
/// first.
pub open spec fn le_value(s: Seq<u8>, w: nat) -> nat
    decreases w,
{
    if w == 0 || s.len() == 0 {
        0
    } else {
        s[0] as nat + 256 * le_value(s.skip(1), (w - 1) as nat)
    }
}

/// The integer whose two's complement is `u`.
pub open spec fn signed(u: nat, modulus: nat) -> int {
    if 2 * u >= modulus {
        u - modulus
    } else {
        u as int
    }
}

/// The powers of 256 that the file's widths need.
pub proof fn lemma_pow256_values()
    ensures
        pow256(1) == 0x100,
        pow256(2) == 0x1_0000,
        pow256(4) == 0x1_0000_0000,
        pow256(8) == 0x1_0000_0000_0000_0000,
{
    reveal_with_fuel(pow256, 9);
}

/// A number in `w` bytes takes `w` bytes.
pub proof fn lemma_le_bytes_len(v: nat, w: nat)
    ensures
        le_bytes(v, w).len() == w,
    decreases w,
{
    if w > 0 {
        lemma_le_bytes_len(v / 256, (w - 1) as nat);
    }
}

/// Reading the bytes of a number that fits gives the number, whatever
/// follows.
pub proof fn lemma_le_value(v: nat, w: nat, rest: Seq<u8>)
    requires
        v < pow256(w),
    ensures
        le_value(le_bytes(v, w) + rest, w) == v,
    decreases w,
{
    if w > 0 {
        let b = (v % 256) as u8;
        let tail = le_bytes(v / 256, (w - 1) as nat);
        let s = le_bytes(v, w) + rest;
        assert(le_bytes(v, w) == seq![b] + tail);
        assert(s.skip(1) =~= tail + rest);
        assert(s[0] == b);
        lemma_le_value(v / 256, (w - 1) as nat, rest);
    }
}

/// Reading a number where its bytes stand gives the number.
pub proof fn lemma_le_value_at(s: Seq<u8>, p: int, v: nat, w: nat)
    requires
        v < pow256(w),
        occurs(s, p, le_bytes(v, w)),
    ensures
        le_value(s.skip(p), w) == v,
{
    lemma_occurs_skip(s, p, le_bytes(v, w));
    lemma_le_value(v, w, s.skip(p + le_bytes(v, w).len()));
}

/// The value that the bytes `b` write in a column of type `ty`.
pub open spec fn value_of_bytes(ty: ColumnType, b: Seq<u8>) -> Datum {
    match ty {
        ColumnType::Int32 => Datum::Int(signed(le_value(b, 4), 0x1_0000_0000) as i64),
        ColumnType::Int64 => Datum::Int(signed(le_value(b, 8), 0x1_0000_0000_0000_0000) as i64),
        ColumnType::Boolean => Datum::Bool(b[0] == 1),
        _ => Datum::Float(
            Decimal {
                negative: b[0] == 1,
                mantissa: le_value(b.skip(1), 8) as u64,
                exponent: signed(le_value(b.skip(9), 4), 0x1_0000_0000) as i32,
            },
        ),
    }
}

/// Every cell of a column takes the same number of bytes.
pub proof fn lemma_value_bytes_len(ty: ColumnType, d: Datum)
    requires
        d.fits(ty),
    ensures
        value_bytes(ty, d).len() == value_width(ty),
{
    match d {
        Datum::Null => {},
        Datum::Int(v) => {
            lemma_le_bytes_len(unsigned(v as int, 0x1_0000_0000), 4);
            lemma_le_bytes_len(unsigned(v as int, 0x1_0000_0000_0000_0000), 8);
        },
        Datum::Float(x) => {
            lemma_le_bytes_len(x.mantissa as nat, 8);
            lemma_le_bytes_len(unsigned(x.exponent as int, 0x1_0000_0000), 4);
        },
        Datum::Bool(b) => {},
    }
}

/// Reading the bytes of a value gives the value, whatever follows.
pub proof fn lemma_value_of_bytes(ty: ColumnType, d: Datum, rest: Seq<u8>)
    requires
        d.fits(ty),
        !(d is Null),
    ensures
        value_of_bytes(ty, value_bytes(ty, d) + rest) == d,
{
    lemma_pow256_values();
    let s = value_bytes(ty, d) + rest;
    match d {
        Datum::Null => {},
        Datum::Int(v) => {
            if ty == ColumnType::Int32 {
                lemma_le_value(unsigned(v as int, 0x1_0000_0000), 4, rest);
            } else {
                lemma_le_value(unsigned(v as int, 0x1_0000_0000_0000_0000), 8, rest);
            }
        },
        Datum::Float(x) => {
            let sign = seq![
                if x.negative {
                    1u8
                } else {
                    0u8
                },
            ];
            let m = le_bytes(x.mantissa as nat, 8);
            let e = le_bytes(unsigned(x.exponent as int, 0x1_0000_0000), 4);
            lemma_le_bytes_len(x.mantissa as nat, 8);
            lemma_le_bytes_len(unsigned(x.exponent as int, 0x1_0000_0000), 4);
            assert(s[0] == sign[0]);
            assert(s.skip(1) =~= m + (e + rest));
            assert(s.skip(9) =~= e + rest);
            lemma_le_value(x.mantissa as nat, 8, e + rest);
            lemma_le_value(unsigned(x.exponent as int, 0x1_0000_0000), 4, rest);
        },
        Datum::Bool(b) => {
            assert(s[0] == value_bytes(ty, d)[0]);
        },
    }
}

/// The bytes of the cells of a column take the same room each.
pub proof fn lemma_values_bytes_len(ty: ColumnType, cells: Seq<Datum>)
    requires
        forall|i: int| 0 <= i < cells.len() ==> (#[trigger] cells[i]).fits(ty),
    ensures
        values_bytes(ty, cells).len() == value_width(ty) * cells.len(),
    decreases cells.len(),
{
    let w = value_width(ty) as int;
    let n = cells.len() as int;
    if n > 0 {
        let front = cells.drop_last();
        assert forall|i: int| 0 <= i < front.len() implies (#[trigger] front[i]).fits(ty) by {
            assert(front[i] == cells[i]);
        }
        lemma_values_bytes_len(ty, front);
        assert(cells.last() == cells[n - 1]);
        lemma_value_bytes_len(ty, cells.last());
        assert(w * n == w * (n - 1) + w) by (nonlinear_arith);
    } else {
        assert(w * 0 == 0) by (nonlinear_arith);
    }
}

/// The bytes of cell `i` stand in the bytes of the column at `i` times
/// the room of a cell.
pub proof fn lemma_cell_occurs(ty: ColumnType, cells: Seq<Datum>, i: int)
    requires
        forall|k: int| 0 <= k < cells.len() ==> (#[trigger] cells[k]).fits(ty),
        0 <= i < cells.len(),
    ensures
        occurs(values_bytes(ty, cells), value_width(ty) * i, value_bytes(ty, cells[i])),
    decreases cells.len(),
{
    let w = value_width(ty) as int;
    let n = cells.len() as int;
    let front = cells.drop_last();
    let all = values_bytes(ty, cells);
    let head = values_bytes(ty, front);
    let last = value_bytes(ty, cells.last());
    assert forall|k: int| 0 <= k < front.len() implies (#[trigger] front[k]).fits(ty) by {
        assert(front[k] == cells[k]);
    }
    lemma_values_bytes_len(ty, front);
    assert(cells.last() == cells[n - 1]);
    lemma_value_bytes_len(ty, cells.last());
    assert(all == head + last);
    if i == n - 1 {
        assert(all.subrange(w * i, w * i + last.len()) =~= last);
    } else {
        lemma_cell_occurs(ty, front, i);
        let x = value_bytes(ty, front[i]);
        assert(front[i] == cells[i]);
        assert(w * i >= 0) by (nonlinear_arith)
            requires
                w >= 0,
                i >= 0,
        ;
        assert forall|k: int| 0 <= k < x.len() implies all[w * i + k] == x[k] by {
            lemma_occurs_at(head, w * i, x, k);
        }
        assert(all.subrange(w * i, w * i + x.len()) =~= x);
    }
}

/// The cells that the null marks and the value bytes of a column write.
pub open spec fn cells_of(ty: ColumnType, marks: Seq<u8>, values: Seq<u8>) -> Seq<Datum> {
    Seq::new(
        marks.len(),
        |i: int|
            if marks[i] == 1 {
                Datum::Null
            } else {
                value_of_bytes(ty, values.skip(value_width(ty) * i))
            },
    )
}

/// Reading the null marks and the value bytes of a column gives its
/// cells.
pub proof fn lemma_cells_of(ty: ColumnType, cells: Seq<Datum>)
    requires
        forall|i: int| 0 <= i < cells.len() ==> (#[trigger] cells[i]).fits(ty),
    ensures
        cells_of(ty, null_marks(cells), values_bytes(ty, cells)) == cells,
{
    let marks = null_marks(cells);
    let values = values_bytes(ty, cells);
    let back = cells_of(ty, marks, values);
    assert forall|i: int| 0 <= i < cells.len() implies back[i] == cells[i] by {
        let d = cells[i];
        if !(d is Null) {
            lemma_cell_occurs(ty, cells, i);
            let x = value_bytes(ty, d);
            lemma_occurs_skip(values, value_width(ty) * i, x);
            lemma_value_of_bytes(ty, d, values.skip(value_width(ty) * i + x.len()));
        }
    }
    assert(back =~= cells);
}

/// The type that a tag stands for.
pub open spec fn type_of_tag(b: u8) -> ColumnType {
    if b == 1 {
        ColumnType::Int32
    } else if b == 2 {
        ColumnType::Int64
    } else if b == 3 {
        ColumnType::Float32
    } else if b == 4 {
        ColumnType::Float64
    } else {
        ColumnType::Boolean
    }
}

/// The length of the name in the declaration at `p`.
pub open spec fn name_len_at(s: Seq<u8>, p: int) -> int {
    le_value(s.skip(p), 8) as int
}

/// The name in the declaration at `p`.
pub open spec fn name_at(s: Seq<u8>, p: int) -> Seq<u8> {
    s.subrange(p + 8, p + 8 + name_len_at(s, p))
}

/// The type in the declaration at `p`.
pub open spec fn type_at(s: Seq<u8>, p: int) -> ColumnType {
    type_of_tag(s[p + 8 + name_len_at(s, p)])
}

/// Where declaration `j` starts.
pub open spec fn declaration_at(s: Seq<u8>, j: nat) -> int
    decreases j,
{
    if j == 0 {
        14
    } else {
        let p = declaration_at(s, (j - 1) as nat);
        p + 8 + name_len_at(s, p) + 1
    }
}

/// The number of bytes that the block at `p` takes.
pub open spec fn block_len(s: Seq<u8>, p: int) -> int {
    16 + le_value(s.skip(p + 8), 8) as int
}

/// The bytes that the block at `p` holds, unpacked.
pub open spec fn block_at(s: Seq<u8>, p: int) -> Seq<u8> {
    unpack(s.subrange(p + 16, p + 16 + le_value(s.skip(p + 8), 8)))
}

/// Where the block of null marks starts in the chunk at `p`.
pub open spec fn marks_at(s: Seq<u8>, p: int, ty: ColumnType) -> int {
    if s[p + 8] == 1 {
        p + 9 + 2 * value_width(ty)
    } else {
        p + 9
    }
}

/// Where the block of values starts in the chunk at `p`.
pub open spec fn values_at(s: Seq<u8>, p: int, ty: ColumnType) -> int {
    marks_at(s, p, ty) + block_len(s, marks_at(s, p, ty))
}

/// Where the chunk at `p` ends.
pub open spec fn chunk_end(s: Seq<u8>, p: int, ty: ColumnType) -> int {
    values_at(s, p, ty) + block_len(s, values_at(s, p, ty))
}

/// The cells that the chunk at `p` holds.
pub open spec fn chunk_cells(s: Seq<u8>, p: int, ty: ColumnType) -> Seq<Datum> {
    cells_of(ty, block_at(s, marks_at(s, p, ty)), block_at(s, values_at(s, p, ty)))
}

/// The number of columns that a file declares.
pub open spec fn column_count_of(s: Seq<u8>) -> nat {
    le_value(s.skip(6), 8)
}

/// Where chunk `j` starts.
pub open spec fn chunk_at(s: Seq<u8>, j: nat) -> int
    decreases j,
{
    if j == 0 {
        declaration_at(s, column_count_of(s)) + 12
    } else {
        let p = chunk_at(s, (j - 1) as nat);
        chunk_end(s, p, type_at(s, declaration_at(s, (j - 1) as nat)))
    }
}

/// The table that the bytes of a file hold.
pub open spec fn read_table(s: Seq<u8>) -> TableView {
    let n = column_count_of(s);
    TableView {
        rows: le_value(s.skip(declaration_at(s, n) + 4), 8),
        columns: Seq::new(
            n,
            |j: int|
                ColumnView {
                    name: name_at(s, declaration_at(s, j as nat)),
                    ty: type_at(s, declaration_at(s, j as nat)),
                    cells: chunk_cells(
                        s,
                        chunk_at(s, j as nat),
                        type_at(s, declaration_at(s, j as nat)),
                    ),
                },
        ),
    }
}

/// Whether every length that the file of `t` records fits in its eight
/// bytes, every column has as many cells as the table has rows, and
/// every cell fits its column.
pub open spec fn readable(t: TableView) -> bool {
    &&& t.wf()
    &&& t.typed()
    &&& t.columns.len() < pow256(8)
    &&& 26 * t.rows < pow256(8)
    &&& forall|j: int| 0 <= j < t.columns.len() ==> (#[trigger] t.columns[j]).name.len() < pow256(8)
}

/// Packed bytes take at most twice the room.
pub proof fn lemma_pack_len(s: Seq<u8>)
    ensures
        pack(s).len() <= 2 * s.len(),
    decreases s.len(),
{
    if s.len() > 0 {
        lemma_run_from(s, 1);
        lemma_pack_len(s.skip(run_from(s, 1)));
    }
}

/// Reading a declaration where it stands gives the name and the type.
proof fn lemma_read_declaration(s: Seq<u8>, p: int, c: ColumnView)
    requires
        occurs(s, p, declaration(c)),
        c.name.len() < pow256(8),
    ensures
        name_len_at(s, p) == c.name.len(),
        name_at(s, p) == c.name,
        type_at(s, p) == c.ty,
        declaration(c).len() == 8 + c.name.len() + 1,
{
    let size = le_bytes(c.name.len(), 8);
    let tag = seq![type_tag(c.ty)];
    lemma_le_bytes_len(c.name.len(), 8);
    lemma_occurs_middle(size, c.name, tag);
    lemma_occurs_within(s, p, declaration(c), 0, size);
    lemma_occurs_within(s, p, declaration(c), 8, c.name);
    lemma_occurs_within(s, p, declaration(c), (8 + c.name.len()) as int, tag);
    lemma_le_value_at(s, p, c.name.len(), 8);
    lemma_occurs_at(s, p + 8 + c.name.len(), tag, 0);
}

/// Reading a block where it stands gives the bytes that were packed.
proof fn lemma_read_block(s: Seq<u8>, p: int, raw: Seq<u8>)
    requires
        occurs(s, p, block(raw)),
        2 * raw.len() < pow256(8),
    ensures
        block_len(s, p) == block(raw).len(),
        block_at(s, p) == raw,
{
    let packed = pack(raw);
    let a = le_bytes(raw.len(), 8);
    let b = le_bytes(packed.len(), 8);
    lemma_pack_len(raw);
    lemma_le_bytes_len(raw.len(), 8);
    lemma_le_bytes_len(packed.len(), 8);
    lemma_occurs_middle(a, b, packed);
    lemma_occurs_within(s, p, block(raw), 8, b);
    lemma_occurs_within(s, p, block(raw), 16, packed);
    lemma_le_value_at(s, p + 8, packed.len(), 8);
    lemma_unpack_pack(raw);
}

/// Reading a chunk where it stands gives the cells of the column.
proof fn lemma_read_chunk(s: Seq<u8>, p: int, c: ColumnView)
    requires
        occurs(s, p, chunk(c)),
        forall|i: int| 0 <= i < c.cells.len() ==> (#[trigger] c.cells[i]).fits(c.ty),
        26 * c.cells.len() < pow256(8),
    ensures
        chunk_end(s, p, c.ty) == p + chunk(c).len(),
        chunk_cells(s, p, c.ty) == c.cells,
{
    let ty = c.ty;
    let cells = c.cells;
    let count = le_bytes(null_count(cells), 8);
    let range = range_bytes(ty, cells);
    let marks = null_marks(cells);
    let values = values_bytes(ty, cells);
    let w = value_width(ty) as int;
    lemma_le_bytes_len(null_count(cells), 8);
    lemma_range(cells);
    lemma_values_bytes_len(ty, cells);
    assert(values.len() <= 13 * cells.len()) by {
        assert(w <= 13);
        assert(w * cells.len() <= 13 * cells.len()) by (nonlinear_arith)
            requires
                0 <= w <= 13,
                cells.len() >= 0,
        ;
    }
    if !(min_cell(cells) is Null) {
        let a = choose|a: int| 0 <= a < cells.len() && cells[a] == min_cell(cells);
        let b = choose|b: int| 0 <= b < cells.len() && cells[b] == max_cell(cells);
        assert(cells[a].fits(ty));
        assert(cells[b].fits(ty));
        lemma_value_bytes_len(ty, min_cell(cells));
        lemma_value_bytes_len(ty, max_cell(cells));
        assert(range.len() == 1 + 2 * w);
        assert(range[0] == 1u8);
    } else {
        assert(range.len() == 1);
        assert(range[0] == 0u8);
    }
    let head = count + range;
    let whole = chunk(c);
    assert(whole == head + block(marks) + block(values));
    lemma_occurs_middle(head, block(marks), block(values));
    lemma_occurs_middle(count, range, Seq::<u8>::empty());
    assert(count + range + Seq::<u8>::empty() =~= head);
    lemma_occurs_within(whole, 0, head, 8, range);
    lemma_occurs_within(s, p, whole, 8, range);
    lemma_occurs_at(s, p + 8, range, 0);
    let m = p + 8 + range.len();
    assert(marks_at(s, p, ty) == m);
    lemma_occurs_within(s, p, whole, head.len() as int, block(marks));
    lemma_read_block(s, m, marks);
    lemma_occurs_within(s, p, whole, (head.len() + block(marks).len()) as int, block(values));
    lemma_read_block(s, m + block(marks).len(), values);
    lemma_cells_of(ty, cells);
}

/// The declarations of the first `k` columns open the declarations of
/// all.
proof fn lemma_declarations_prefix(columns: Seq<ColumnView>, k: int)
    requires
        0 <= k <= columns.len(),
    ensures
        occurs(declarations(columns), 0, declarations(columns.subrange(0, k))),
        k < columns.len() ==> occurs(
            declarations(columns),
            declarations(columns.subrange(0, k)).len() as int,
            declaration(columns[k]),
        ),
    decreases columns.len(),
{
    let all = declarations(columns);
    let n = columns.len() as int;
    if k == n {
        assert(columns.subrange(0, k) =~= columns);
        assert(all.subrange(0, all.len() as int) =~= all);
    } else {
        let front = columns.drop_last();
        let last = declaration(columns.last());
        assert(all == declarations(front) + last);
        assert(front.subrange(0, k) =~= columns.subrange(0, k));
        lemma_declarations_prefix(front, k);
        lemma_occurs_middle(declarations(front), last, Seq::<u8>::empty());
        assert(declarations(front) + last + Seq::<u8>::empty() =~= all);
        lemma_occurs_within(all, 0, declarations(front), 0, declarations(columns.subrange(0, k)));
        if k < n - 1 {
            assert(front[k] == columns[k]);
            lemma_occurs_within(
                all,
                0,
                declarations(front),
                declarations(columns.subrange(0, k)).len() as int,
                declaration(columns[k]),
            );
        } else {
            assert(front =~= columns.subrange(0, k));
            assert(columns.last() == columns[k]);
        }
    }
}

/// The chunks of the first `k` columns open the chunks of all.
proof fn lemma_chunks_prefix(columns: Seq<ColumnView>, k: int)
    requires
        0 <= k <= columns.len(),
    ensures
        occurs(chunks(columns), 0, chunks(columns.subrange(0, k))),
        k < columns.len() ==> occurs(
            chunks(columns),
            chunks(columns.subrange(0, k)).len() as int,
            chunk(columns[k]),
        ),
    decreases columns.len(),
{
    let all = chunks(columns);
    let n = columns.len() as int;
    if k == n {
        assert(columns.subrange(0, k) =~= columns);
        assert(all.subrange(0, all.len() as int) =~= all);
    } else {
        let front = columns.drop_last();
        let last = chunk(columns.last());
        assert(all == chunks(front) + last);
        assert(front.subrange(0, k) =~= columns.subrange(0, k));
        lemma_chunks_prefix(front, k);
        lemma_occurs_middle(chunks(front), last, Seq::<u8>::empty());
        assert(chunks(front) + last + Seq::<u8>::empty() =~= all);
        lemma_occurs_within(all, 0, chunks(front), 0, chunks(columns.subrange(0, k)));
        if k < n - 1 {
            assert(front[k] == columns[k]);
            lemma_occurs_within(
                all,
                0,
                chunks(front),
                chunks(columns.subrange(0, k)).len() as int,
                chunk(columns[k]),
            );
        } else {
            assert(front =~= columns.subrange(0, k));
            assert(columns.last() == columns[k]);
        }
    }
}

/// Declaration `j` of a file starts after the declarations before it,
/// and holds the name and type of column `j`.
proof fn lemma_declaration_at(s: Seq<u8>, columns: Seq<ColumnView>, j: int)
    requires
        occurs(s, 14, declarations(columns)),
        forall|k: int| 0 <= k < columns.len() ==> (#[trigger] columns[k]).name.len() < pow256(8),
        0 <= j <= columns.len(),
    ensures
        declaration_at(s, j as nat) == 14 + declarations(columns.subrange(0, j)).len(),
        j < columns.len() ==> name_at(s, declaration_at(s, j as nat)) == columns[j].name
            && type_at(s, declaration_at(s, j as nat)) == columns[j].ty,
    decreases j,
{
    if j == 0 {
        assert(columns.subrange(0, 0) =~= Seq::<ColumnView>::empty());
    } else {
        lemma_declaration_at(s, columns, j - 1);
        let p = declaration_at(s, (j - 1) as nat);
        lemma_declarations_prefix(columns, j - 1);
        lemma_occurs_within(
            s,
            14,
            declarations(columns),
            declarations(columns.subrange(0, j - 1)).len() as int,
            declaration(columns[j - 1]),
        );
        lemma_read_declaration(s, p, columns[j - 1]);
        assert(columns.subrange(0, j).drop_last() =~= columns.subrange(0, j - 1));
        assert(columns.subrange(0, j).last() == columns[j - 1]);
    }
    if j < columns.len() {
        lemma_declarations_prefix(columns, j);
        lemma_occurs_within(
            s,
            14,
            declarations(columns),
            declarations(columns.subrange(0, j)).len() as int,
            declaration(columns[j]),
        );
        lemma_read_declaration(s, declaration_at(s, j as nat), columns[j]);
    }
}

/// Chunk `j` of a file starts after the chunks before it, and holds
/// the cells of column `j`.
proof fn lemma_chunk_at(s: Seq<u8>, t: TableView, start: int, j: int)
    requires
        readable(t),
        occurs(s, 14, declarations(t.columns)),
        column_count_of(s) == t.columns.len(),
        start == 14 + declarations(t.columns).len() + 12,
        occurs(s, start, chunks(t.columns)),
        0 <= j <= t.columns.len(),
    ensures
        chunk_at(s, j as nat) == start + chunks(t.columns.subrange(0, j)).len(),
        j < t.columns.len() ==> chunk_cells(
            s,
            chunk_at(s, j as nat),
            t.columns[j].ty,
        ) == t.columns[j].cells,
    decreases j,
{
    let columns = t.columns;
    if j == 0 {
        lemma_declaration_at(s, columns, columns.len() as int);
        assert(columns.subrange(0, columns.len() as int) =~= columns);
        assert(columns.subrange(0, 0) =~= Seq::<ColumnView>::empty());
    } else {
        lemma_chunk_at(s, t, start, j - 1);
        let p = chunk_at(s, (j - 1) as nat);
        lemma_declaration_at(s, columns, j - 1);
        lemma_chunks_prefix(columns, j - 1);
        lemma_occurs_within(
            s,
            start,
            chunks(columns),
            chunks(columns.subrange(0, j - 1)).len() as int,
            chunk(columns[j - 1]),
        );
        lemma_cells_fit_column(t, j - 1);
        lemma_read_chunk(s, p, columns[j - 1]);
        assert(columns.subrange(0, j).drop_last() =~= columns.subrange(0, j - 1));
        assert(columns.subrange(0, j).last() == columns[j - 1]);
    }
    if j < columns.len() {
        lemma_chunks_prefix(columns, j);
        lemma_occurs_within(
            s,
            start,
            chunks(columns),
            chunks(columns.subrange(0, j)).len() as int,
            chunk(columns[j]),
        );
        lemma_cells_fit_column(t, j);
        lemma_read_chunk(s, chunk_at(s, j as nat), columns[j]);
    }
}

/// The cells of a column of a readable table fit it and are few enough.
proof fn lemma_cells_fit_column(t: TableView, j: int)
    requires
        readable(t),
        0 <= j < t.columns.len(),
    ensures
        forall|i: int|
            0 <= i < t.columns[j].cells.len() ==> (#[trigger] t.columns[j].cells[i]).fits(
                t.columns[j].ty,
            ),
        26 * t.columns[j].cells.len() < pow256(8),
{
    assert(t.columns[j].cells.len() == t.rows);
}

/// The file format is unambiguous: the bytes of a file give back the
/// table that was written.
pub proof fn lemma_read_written(t: TableView)
    requires
        readable(t),
    ensures
        read_table(file_bytes(t)) == t,
{
    let s = file_bytes(t);
    let columns = t.columns;
    let n = columns.len();
    let version = le_bytes(1, 2);
    let count = le_bytes(n, 8);
    let decls = declarations(columns);
    let groups = le_bytes(1, 4);
    let rows = le_bytes(t.rows, 8);
    let body = chunks(columns);
    lemma_le_bytes_len(1, 2);
    lemma_le_bytes_len(n, 8);
    lemma_le_bytes_len(1, 4);
    lemma_le_bytes_len(t.rows, 8);
    assert(magic().len() == 4);
    let opening = magic() + version;
    lemma_occurs_middle(opening, count, decls + groups + rows + body);
    assert(s =~= opening + count + (decls + groups + rows + body));
    lemma_le_value_at(s, 6, n, 8);
    lemma_occurs_middle(opening + count, decls, groups + rows + body);
    assert(s =~= (opening + count) + decls + (groups + rows + body));
    let g: int = 14 + decls.len() as int;
    lemma_occurs_middle(opening + count + decls + groups, rows, body);
    assert(s =~= (opening + count + decls + groups) + rows + body);
    lemma_le_value_at(s, g + 4, t.rows, 8);
    lemma_declaration_at(s, columns, n as int);
    assert(columns.subrange(0, n as int) =~= columns);
    let back = read_table(s);
    assert(back.rows == t.rows);
    assert forall|j: int| 0 <= j < n implies back.columns[j] == columns[j] by {
        lemma_declaration_at(s, columns, j);
        lemma_chunk_at(s, t, g + 12, j);
    }
    assert(back.columns =~= columns);
}

/// No two tables are written alike.
pub proof fn lemma_file_unambiguous(a: TableView, b: TableView)
    requires
        readable(a),
        readable(b),
        file_bytes(a) == file_bytes(b),
    ensures
        a == b,
{
    lemma_read_written(a);
    lemma_read_written(b);
}

} // verus!
