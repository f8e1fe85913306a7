//! Values as text: the writing that the decoder reads back.

use vstd::prelude::*;
use crate::bytes::{CARRIAGE_RETURN, COMMA, LINE_FEED, MINUS, QUOTE};
use crate::csv::FieldView;
use crate::decimal::{
    decimal_of_text, digits_end, lemma_decimal_normal, lemma_mantissa, mantissa_of, trailing_zeros,
    Decimal,
};
use crate::decode::datum_of_field;
use crate::number::{
    all_digits, bool_of_text, digits_value, int_of_text, is_digit, lemma_digits_push, lowered,
};
use crate::schema::ColumnType;
use crate::table::Datum;

verus! {

/// A natural number in base ten, without leading zeros.
pub open spec fn format_nat(n: nat) -> Seq<u8>
    decreases n,
{
    if n < 10 {
        seq![(48 + n) as u8]
    } else {
        format_nat(n / 10).push((48 + n % 10) as u8)
    }
}

/// An integer in base ten, with a minus sign when it is negative.
pub open spec fn format_int(v: int) -> Seq<u8> {
    if v < 0 {
        seq![MINUS] + format_nat((-v) as nat)
    } else {
        format_nat(v as nat)
    }
}

/// A decimal as sign, mantissa, `e` and exponent.
pub open spec fn format_decimal(d: Decimal) -> Seq<u8> {
    (if d.negative {
        seq![MINUS]
    } else {
        Seq::<u8>::empty()
    }) + format_nat(d.mantissa as nat) + seq![101u8] + format_int(d.exponent as int)
}

/// A boolean as `true` or `false`.
pub open spec fn format_bool(b: bool) -> Seq<u8> {
    if b {
        seq![116u8, 114u8, 117u8, 101u8]
    } else {
        seq![102u8, 97u8, 108u8, 115u8, 101u8]
    }
}

/// The text of a cell; an empty cell has the empty text.
pub open spec fn text_of_datum(d: Datum) -> Seq<u8> {
    match d {
        Datum::Null => Seq::empty(),
        Datum::Int(v) => format_int(v as int),
        Datum::Float(x) => format_decimal(x),
        Datum::Bool(b) => format_bool(b),
    }
}

/// Whether a byte is none of those that end or quote a field.
pub open spec fn plain_byte(b: u8) -> bool {
    b != COMMA && b != QUOTE && b != LINE_FEED && b != CARRIAGE_RETURN
}

/// Whether a text can stand as an unquoted field.
pub open spec fn is_plain(s: Seq<u8>) -> bool {
    forall|i: int| 0 <= i < s.len() ==> plain_byte(#[trigger] s[i])
}

/// Whether a cell is in normal form: a decimal is.
pub open spec fn normal(d: Datum) -> bool {
    match d {
        Datum::Float(x) => x.wf(),
        _ => true,
    }
}

/// The writing of a natural number is one digit or more, and writes
/// that number.
pub proof fn lemma_format_nat(n: nat)
    ensures
        format_nat(n).len() >= 1,
        all_digits(format_nat(n)),
        digits_value(format_nat(n)) == n,
    decreases n,
{
    if n < 10 {
        let b = (48 + n) as u8;
        assert(format_nat(n) =~= Seq::<u8>::empty().push(b));
        lemma_digits_push(Seq::<u8>::empty(), b);
        assert(digits_value(Seq::<u8>::empty()) == 0);
    } else {
        lemma_format_nat(n / 10);
        let b = (48 + n % 10) as u8;
        lemma_digits_push(format_nat(n / 10), b);
    }
}

/// Reading the writing of an integer gives the integer.
pub proof fn lemma_int_of_format(v: int)
    ensures
        int_of_text(format_int(v)) == Some(v),
        format_int(v).len() >= 1,
        forall|i: int|
            0 <= i < format_int(v).len() ==> is_digit(#[trigger] format_int(v)[i]) || format_int(
                v,
            )[i] == MINUS,
{
    let s = format_int(v);
    if v < 0 {
        let m = format_nat((-v) as nat);
        lemma_format_nat((-v) as nat);
        assert(s.subrange(1, s.len() as int) =~= m);
        assert(s[0] == MINUS);
        assert forall|i: int| 0 <= i < s.len() implies is_digit(#[trigger] s[i]) || s[i]
            == MINUS by {
            if i > 0 {
                assert(s[i] == m[i - 1]);
            }
        }
    } else {
        lemma_format_nat(v as nat);
        assert(is_digit(s[0]));
    }
}

/// A run of digits ends where the first other byte stands.
pub proof fn lemma_digits_end(s: Seq<u8>, from: int, to: int)
    requires
        0 <= from <= to <= s.len(),
        forall|k: int| from <= k < to ==> is_digit(#[trigger] s[k]),
        to == s.len() || !is_digit(s[to]),
    ensures
        digits_end(s, from) == to,
    decreases to - from,
{
    if from < to {
        assert(is_digit(s[from]));
        lemma_digits_end(s, from + 1, to);
    }
}

/// Reading the writing of a decimal in normal form gives the decimal.
pub proof fn lemma_decimal_of_format(d: Decimal)
    requires
        d.wf(),
    ensures
        decimal_of_text(format_decimal(d)) == Some(d),
{
    let s = format_decimal(d);
    let m = format_nat(d.mantissa as nat);
    let x = format_int(d.exponent as int);
    lemma_format_nat(d.mantissa as nat);
    lemma_int_of_format(d.exponent as int);
    lemma_mantissa(d.mantissa as nat);
    let start: int = if d.negative {
        1
    } else {
        0
    };
    let int_end = start + m.len();
    assert(s.len() == start + m.len() + 1 + x.len());
    assert forall|k: int| start <= k < int_end implies is_digit(#[trigger] s[k]) by {
        assert(s[k] == m[k - start]);
    }
    assert(s[int_end] == 101u8);
    assert(s[0] == (if d.negative {
        MINUS
    } else {
        m[0]
    }));
    assert(is_digit(m[0]));
    lemma_digits_end(s, start, int_end);
    assert(s.subrange(start, int_end) + s.subrange(int_end, int_end) =~= m);
    assert(s.subrange(int_end + 1, s.len() as int) =~= x);
    if d.mantissa != 0 {
        assert(trailing_zeros(d.mantissa as nat) == 0);
        assert(mantissa_of(d.mantissa as nat) == d.mantissa);
    }
}

/// Reading the writing of a boolean gives the boolean.
pub proof fn lemma_bool_of_format(b: bool)
    ensures
        bool_of_text(format_bool(b)) == Some(b),
{
    let t = seq![116u8, 114u8, 117u8, 101u8];
    let f = seq![102u8, 97u8, 108u8, 115u8, 101u8];
    assert(t.len() == 4 && t[0] == 116 && t[1] == 114 && t[2] == 117 && t[3] == 101);
    assert(f.len() == 5 && f[0] == 102 && f[1] == 97 && f[2] == 108 && f[3] == 115 && f[4] == 101);
    assert(lowered(t) =~= t);
    assert(lowered(f) =~= f);
}

/// The text of a cell can stand as an unquoted field, and is empty for
/// the empty cell only.
pub proof fn lemma_text_plain(d: Datum)
    ensures
        is_plain(text_of_datum(d)),
        (text_of_datum(d).len() == 0) == (d is Null),
{
    let s = text_of_datum(d);
    match d {
        Datum::Null => {},
        Datum::Int(v) => {
            lemma_int_of_format(v as int);
        },
        Datum::Float(x) => {
            let m = format_nat(x.mantissa as nat);
            let e = format_int(x.exponent as int);
            lemma_format_nat(x.mantissa as nat);
            lemma_int_of_format(x.exponent as int);
            let start: int = if x.negative {
                1
            } else {
                0
            };
            assert forall|i: int| 0 <= i < s.len() implies plain_byte(#[trigger] s[i]) by {
                if i < start {
                    assert(s[i] == MINUS);
                } else if i < start + m.len() {
                    assert(s[i] == m[i - start]);
                } else if i == start + m.len() {
                    assert(s[i] == 101u8);
                } else {
                    assert(s[i] == e[i - start - m.len() - 1]);
                }
            }
        },
        Datum::Bool(b) => {
            let t = seq![116u8, 114u8, 117u8, 101u8];
            let f = seq![102u8, 97u8, 108u8, 115u8, 101u8];
            assert(t.len() == 4 && t[0] == 116 && t[1] == 114 && t[2] == 117 && t[3] == 101);
            assert(f.len() == 5 && f[0] == 102 && f[1] == 97 && f[2] == 108 && f[3] == 115 && f[4]
                == 101);
        },
    }
}

/// Reading the text of a cell as a field of its column gives the cell.
pub proof fn lemma_datum_of_text(ty: ColumnType, d: Datum)
    requires
        d.fits(ty),
        normal(d),
    ensures
        datum_of_field(ty, FieldView { text: text_of_datum(d), quoted: false }) == Some(d),
{
    lemma_text_plain(d);
    match d {
        Datum::Null => {},
        Datum::Int(v) => {
            lemma_int_of_format(v as int);
        },
        Datum::Float(x) => {
            lemma_decimal_of_format(x);
        },
        Datum::Bool(b) => {
            lemma_bool_of_format(b);
        },
    }
}

/// A cell that was read from a field is in normal form.
pub proof fn lemma_datum_normal(ty: ColumnType, f: FieldView)
    ensures
        datum_of_field(ty, f) matches Some(d) ==> normal(d),
{
    lemma_decimal_normal(f.text);
}

} // verus!
