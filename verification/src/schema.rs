//! Column declarations of the form `name:type` and the schema they make.

use vstd::prelude::*;
use crate::bytes::{bytes_eq, copy_range, find, find_byte, lemma_find, views, COLON};
use crate::error::{Error, ErrorView};

verus! {

/// The type of a column's values.
#[derive(Clone, Copy, Debug, PartialEq, Eq, Structural)]
pub enum ColumnType {
    Int32,
    Int64,
    Float32,
    Float64,
    Boolean,
}

/// One declared column.
#[derive(Debug, PartialEq, Eq)]
pub struct ColumnSpec {
    pub name: Vec<u8>,
    pub ty: ColumnType,
}

/// The mathematical value of a `ColumnSpec`.
pub struct ColumnSpecView {
    pub name: Seq<u8>,
    pub ty: ColumnType,
}

impl View for ColumnSpec {
    type V = ColumnSpecView;

    open spec fn view(&self) -> ColumnSpecView {
        ColumnSpecView { name: self.name@, ty: self.ty }
    }
}

/// The declared columns, in the order of their declaration.
#[derive(Debug, PartialEq, Eq)]
pub struct Schema {
    pub columns: Vec<ColumnSpec>,
}

impl View for Schema {
    type V = Seq<ColumnSpecView>;

    open spec fn view(&self) -> Seq<ColumnSpecView> {
        Seq::new(self.columns@.len(), |i: int| self.columns@[i]@)
    }
}

/// A schema is well formed when every name is non-empty and no name
/// occurs twice.
pub open spec fn schema_wf(s: Seq<ColumnSpecView>) -> bool {
    &&& forall|i: int| 0 <= i < s.len() ==> (#[trigger] s[i]).name.len() > 0
    &&& forall|i: int, j: int| 0 <= i < j < s.len() ==> (#[trigger] s[i]).name != (#[trigger] s[j]).name
}

/// The type that a type string names: `i32`, `i64`, `f32`, `f64` or
/// `bool`.
pub open spec fn type_of_text(s: Seq<u8>) -> Option<ColumnType> {
    if s == seq![105u8, 51u8, 50u8] {
        Some(ColumnType::Int32)
    } else if s == seq![105u8, 54u8, 52u8] {
        Some(ColumnType::Int64)
    } else if s == seq![102u8, 51u8, 50u8] {
        Some(ColumnType::Float32)
    } else if s == seq![102u8, 54u8, 52u8] {
        Some(ColumnType::Float64)
    } else if s == seq![98u8, 111u8, 111u8, 108u8] {
        Some(ColumnType::Boolean)
    } else {
        None
    }
}

/// What a declaration means.  The name is what stands before the first
/// colon and must not be empty; the type string is what stands between
/// the first colon and the second, or the end.  A declaration without a
/// colon has no type.
pub open spec fn column_of_text(s: Seq<u8>) -> Option<ColumnSpecView> {
    let c1 = find(s, COLON, 0);
    let c2 = find(s, COLON, c1 + 1);
    if c1 == 0 || c1 >= s.len() {
        None
    } else {
        match type_of_text(s.subrange(c1 + 1, c2)) {
            Some(ty) => Some(ColumnSpecView { name: s.subrange(0, c1), ty }),
            None => None,
        }
    }
}

/// Whether declaration `i` is acceptable after the ones before it: it
/// has a meaning, and its name differs from every earlier name.
pub open spec fn declaration_ok(tokens: Seq<Seq<u8>>, i: int) -> bool {
    &&& column_of_text(tokens[i]) is Some
    &&& forall|j: int|
        0 <= j < i ==> (#[trigger] column_of_text(tokens[j])) is Some ==> column_of_text(
            tokens[j],
        )->0.name != column_of_text(tokens[i])->0.name
}

/// The first declaration from `from` on that is not acceptable, or the
/// number of declarations.
pub open spec fn first_rejected(tokens: Seq<Seq<u8>>, from: int) -> int
    decreases tokens.len() - from,
{
    if from < 0 || from >= tokens.len() {
        tokens.len() as int
    } else if !declaration_ok(tokens, from) {
        from
    } else {
        first_rejected(tokens, from + 1)
    }
}

/// The schema that the declarations make: the meaning of each, in
/// order, or the place of the first that is not acceptable.
pub open spec fn schema_of(tokens: Seq<Seq<u8>>) -> Result<Seq<ColumnSpecView>, ErrorView> {
    let bad = first_rejected(tokens, 0);
    if bad < tokens.len() {
        Err(ErrorView::InvalidSchema { index: bad as nat })
    } else {
        Ok(Seq::new(tokens.len(), |i: int| column_of_text(tokens[i])->0))
    }
}

/// `first_rejected` is in range, every declaration before it is
/// acceptable, and the one at it, if any, is not.
pub proof fn lemma_first_rejected(tokens: Seq<Seq<u8>>, from: int)
    requires
        0 <= from <= tokens.len(),
    ensures
        from <= first_rejected(tokens, from) <= tokens.len(),
        first_rejected(tokens, from) < tokens.len() ==> !declaration_ok(
            tokens,
            first_rejected(tokens, from),
        ),
        forall|k: int| from <= k < first_rejected(tokens, from) ==> declaration_ok(tokens, k),
    decreases tokens.len() - from,
{
    if from < tokens.len() && declaration_ok(tokens, from) {
        lemma_first_rejected(tokens, from + 1);
    }
}

/// The type named by a type string.
pub fn parse_type(s: &[u8]) -> (r: Option<ColumnType>)
    ensures
        r == type_of_text(s@),
{
    if s.len() == 3 {
        let a: u8 = s[0];
        let b: u8 = s[1];
        let c: u8 = s[2];
        proof {
            assert(s@ =~= seq![a, b, c]);
            assert(seq![a, b, c][0] == a && seq![a, b, c][1] == b && seq![a, b, c][2] == c);
            assert(seq![105u8, 51u8, 50u8][0] == 105u8 && seq![105u8, 51u8, 50u8][1] == 51u8
                && seq![105u8, 51u8, 50u8][2] == 50u8);
            assert(seq![105u8, 54u8, 52u8][0] == 105u8 && seq![105u8, 54u8, 52u8][1] == 54u8
                && seq![105u8, 54u8, 52u8][2] == 52u8);
            assert(seq![102u8, 51u8, 50u8][0] == 102u8 && seq![102u8, 51u8, 50u8][1] == 51u8
                && seq![102u8, 51u8, 50u8][2] == 50u8);
            assert(seq![102u8, 54u8, 52u8][0] == 102u8 && seq![102u8, 54u8, 52u8][1] == 54u8
                && seq![102u8, 54u8, 52u8][2] == 52u8);
            assert(seq![98u8, 111u8, 111u8, 108u8].len() == 4);
        }
        if a == 105 && b == 51 && c == 50 {
            Some(ColumnType::Int32)
        } else if a == 105 && b == 54 && c == 52 {
            Some(ColumnType::Int64)
        } else if a == 102 && b == 51 && c == 50 {
            Some(ColumnType::Float32)
        } else if a == 102 && b == 54 && c == 52 {
            Some(ColumnType::Float64)
        } else {
            None
        }
    } else if s.len() == 4 {
        proof {
            assert(seq![105u8, 51u8, 50u8].len() == 3);
            assert(seq![105u8, 54u8, 52u8].len() == 3);
            assert(seq![102u8, 51u8, 50u8].len() == 3);
            assert(seq![102u8, 54u8, 52u8].len() == 3);
            let t = seq![98u8, 111u8, 111u8, 108u8];
            assert(t[0] == 98u8 && t[1] == 111u8 && t[2] == 111u8 && t[3] == 108u8);
        }
        if s[0] == 98 && s[1] == 111 && s[2] == 111 && s[3] == 108 {
            proof {
                assert(s@ =~= seq![98u8, 111u8, 111u8, 108u8]);
            }
            Some(ColumnType::Boolean)
        } else {
            None
        }
    } else {
        proof {
            assert(seq![105u8, 51u8, 50u8].len() == 3);
            assert(seq![105u8, 54u8, 52u8].len() == 3);
            assert(seq![102u8, 51u8, 50u8].len() == 3);
            assert(seq![102u8, 54u8, 52u8].len() == 3);
            assert(seq![98u8, 111u8, 111u8, 108u8].len() == 4);
        }
        None
    }
}

/// Reads one declaration `name:type`.  `None` when it has no name, no
/// colon, or a type string that names no type.
pub fn parse_column(col: &[u8]) -> (r: Option<ColumnSpec>)
    ensures
        match r {
            Some(c) => column_of_text(col@) == Some(c@),
            None => column_of_text(col@) is None,
        },
{
    let c1 = find_byte(col, COLON, 0);
    if c1 == 0 || c1 >= col.len() {
        return None;
    }
    let c2 = find_byte(col, COLON, c1 + 1);
    let ty_text = copy_range(col, c1 + 1, c2);
    match parse_type(ty_text.as_slice()) {
        Some(ty) => Some(ColumnSpec { name: copy_range(col, 0, c1), ty }),
        None => None,
    }
}

/// Whether `name` is the name of one of the first `n` columns.
fn name_taken(columns: &Vec<ColumnSpec>, name: &[u8]) -> (r: bool)
    ensures
        r == exists|j: int| 0 <= j < columns@.len() && (#[trigger] columns@[j]).name@ == name@,
{
    let mut j: usize = 0;
    while j < columns.len()
        invariant
            j <= columns@.len(),
            forall|k: int| 0 <= k < j ==> (#[trigger] columns@[k]).name@ != name@,
        decreases columns@.len() - j,
    {
        if bytes_eq(columns[j].name.as_slice(), name) {
            return true;
        }
        j += 1;
    }
    false
}

/// Builds the schema from the declarations, in their order.
///
/// Succeeds exactly when every declaration is acceptable; the schema
/// then holds the meaning of each.  Otherwise the error names the first
/// declaration that is not.
pub fn resolve_schema(tokens: &Vec<Vec<u8>>) -> (r: Result<Schema, Error>)
    ensures
        match r {
            Ok(schema) => schema_of(views(tokens@)) == Ok::<Seq<ColumnSpecView>, ErrorView>(
                schema@,
            ) && schema_wf(schema@),
            Err(e) => schema_of(views(tokens@)) == Err::<Seq<ColumnSpecView>, ErrorView>(e@),
        },
{
    let mut columns: Vec<ColumnSpec> = Vec::new();
    let mut i: usize = 0;
    while i < tokens.len()
        invariant
            i <= tokens@.len(),
            columns@.len() == i,
            first_rejected(views(tokens@), 0) == first_rejected(views(tokens@), i as int),
            forall|k: int| 0 <= k < i ==> declaration_ok(views(tokens@), k),
            forall|k: int|
                0 <= k < i ==> Some((#[trigger] columns@[k])@) == column_of_text(tokens@[k]@),
        decreases tokens@.len() - i,
    {
        let ghost toks = views(tokens@);
        match parse_column(tokens[i].as_slice()) {
            None => {
                proof {
                    assert(toks[i as int] == tokens@[i as int]@);
                    assert(!declaration_ok(toks, i as int));
                }
                return Err(Error::InvalidSchema { index: i });
            },
            Some(c) => {
                if name_taken(&columns, c.name.as_slice()) {
                    proof {
                        let j = choose|j: int|
                            0 <= j < columns@.len() && (#[trigger] columns@[j]).name@ == c.name@;
                        assert(toks[i as int] == tokens@[i as int]@);
                        assert(toks[j] == tokens@[j]@);
                        assert(Some(columns@[j]@) == column_of_text(toks[j]));
                        assert(!declaration_ok(toks, i as int));
                    }
                    return Err(Error::InvalidSchema { index: i });
                }
                proof {
                    assert(toks[i as int] == tokens@[i as int]@);
                    assert forall|j: int|
                        0 <= j < i && (#[trigger] column_of_text(toks[j])) is Some implies column_of_text(
                        toks[j],
                    )->0.name != column_of_text(toks[i as int])->0.name by {
                        assert(toks[j] == tokens@[j]@);
                        assert(Some(columns@[j]@) == column_of_text(tokens@[j]@));
                    }
                    assert(declaration_ok(toks, i as int));
                }
                columns.push(c);
            },
        }
        i += 1;
    }
    let schema = Schema { columns };
    proof {
        let toks = views(tokens@);
        assert(schema@ =~= Seq::new(toks.len(), |i: int| column_of_text(toks[i])->0)) by {
            assert forall|a: int| 0 <= a < schema@.len() implies schema@[a] == column_of_text(
                toks[a],
            )->0 by {
                assert(toks[a] == tokens@[a]@);
                assert(Some(schema.columns@[a]@) == column_of_text(tokens@[a]@));
            }
        }
        assert forall|a: int| 0 <= a < schema@.len() implies (#[trigger] schema@[a]).name.len()
            > 0 by {
            assert(Some(schema.columns@[a]@) == column_of_text(tokens@[a]@));
            lemma_find(tokens@[a]@, COLON, 0);
        }
        assert forall|a: int, b: int| 0 <= a < b < schema@.len() implies (#[trigger] schema@[a]).name
            != (#[trigger] schema@[b]).name by {
            assert(declaration_ok(toks, b));
            assert(toks[a] == tokens@[a]@);
            assert(toks[b] == tokens@[b]@);
            assert(Some(schema.columns@[a]@) == column_of_text(tokens@[a]@));
            assert(Some(schema.columns@[b]@) == column_of_text(tokens@[b]@));
        }
    }
    Ok(schema)
}

} // verus!
