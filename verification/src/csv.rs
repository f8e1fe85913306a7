//! The grammar of delimited text: records of comma-separated fields.
//!
//! A record ends at a line feed, at a carriage return followed by a
//! line feed, or at the end of the text.  A field that starts with a
//! double quote runs to the closing quote; inside it a doubled quote
//! stands for one quote, and commas and line ends are ordinary bytes.
//! Any other field runs to the next comma or line end.

use vstd::prelude::*;
use crate::bytes::{copy_range, CARRIAGE_RETURN, COMMA, LINE_FEED, QUOTE};

verus! {

/// One field of a record: its text, and whether it was quoted.
#[derive(Debug, PartialEq, Eq)]
pub struct Field {
    pub text: Vec<u8>,
    pub quoted: bool,
}

/// The mathematical value of a `Field`.
pub struct FieldView {
    pub text: Seq<u8>,
    pub quoted: bool,
}

impl View for Field {
    type V = FieldView;

    open spec fn view(&self) -> FieldView {
        FieldView { text: self.text@, quoted: self.quoted }
    }
}

/// The values of a sequence of fields.
pub open spec fn field_views(v: Seq<Field>) -> Seq<FieldView> {
    Seq::new(v.len(), |i: int| v[i]@)
}

/// The length of the line end that starts at `p`: one for a line feed,
/// two for a carriage return and a line feed, zero when there is none.
pub open spec fn line_end_len(s: Seq<u8>, p: int) -> int {
    if 0 <= p < s.len() && s[p] == LINE_FEED {
        1
    } else if 0 <= p && p + 1 < s.len() && s[p] == CARRIAGE_RETURN && s[p + 1] == LINE_FEED {
        2
    } else {
        0
    }
}

/// Whether a field may end at `p`: at the end of the text, at a comma,
/// or at a line end.
pub open spec fn field_stop(s: Seq<u8>, p: int) -> bool {
    p >= s.len() || s[p] == COMMA || line_end_len(s, p) > 0
}

/// Where the unquoted field that starts at `p` ends.
pub open spec fn plain_end(s: Seq<u8>, p: int) -> int
    decreases s.len() - p,
{
    if p < 0 || field_stop(s, p) {
        p
    } else {
        plain_end(s, p + 1)
    }
}

/// Reads the inside of a quoted field from `q` on, after the bytes
/// `acc`.  The result is the field's text and the position after the
/// closing quote; `None` when the quote is never closed.
pub open spec fn quoted_scan(s: Seq<u8>, q: int, acc: Seq<u8>) -> Option<(Seq<u8>, int)>
    decreases s.len() - q,
{
    if q < 0 || q >= s.len() {
        None
    } else if s[q] != QUOTE {
        quoted_scan(s, q + 1, acc.push(s[q]))
    } else if q + 1 < s.len() && s[q + 1] == QUOTE {
        quoted_scan(s, q + 2, acc.push(QUOTE))
    } else {
        Some((acc, q + 1))
    }
}

/// The field that starts at `p` and the position where it ends.
/// `None` when a quote is not closed, or when something other than a
/// comma or a line end follows the closing quote.
pub open spec fn field_at(s: Seq<u8>, p: int) -> Option<(FieldView, int)> {
    if 0 <= p < s.len() && s[p] == QUOTE {
        match quoted_scan(s, p + 1, Seq::empty()) {
            Some((text, e)) => if field_stop(s, e) {
                Some((FieldView { text, quoted: true }, e))
            } else {
                None
            },
            None => None,
        }
    } else {
        let e = plain_end(s, p);
        Some((FieldView { text: s.subrange(p, e), quoted: false }, e))
    }
}

/// Reads the fields of a record from `p` on, after the fields `acc`.
/// The result is the record's fields and the position where the next
/// record starts.
pub open spec fn record_scan(s: Seq<u8>, p: int, acc: Seq<FieldView>) -> Option<
    (Seq<FieldView>, int),
>
    decreases s.len() - p,
{
    match field_at(s, p) {
        None => None,
        Some((f, e)) => if p <= e < s.len() && s[e] == COMMA {
            record_scan(s, e + 1, acc.push(f))
        } else {
            Some((acc.push(f), e + line_end_len(s, e)))
        },
    }
}

/// The record that starts at `p`, and where the next one starts.
pub open spec fn record_at(s: Seq<u8>, p: int) -> Option<(Seq<FieldView>, int)> {
    record_scan(s, p, Seq::empty())
}

/// An unquoted field ends in range, where a field may end, and holds no
/// comma and no line end before.
pub proof fn lemma_plain_end(s: Seq<u8>, p: int)
    requires
        0 <= p <= s.len(),
    ensures
        p <= plain_end(s, p) <= s.len(),
        field_stop(s, plain_end(s, p)),
        forall|k: int| p <= k < plain_end(s, p) ==> !field_stop(s, k),
    decreases s.len() - p,
{
    if !field_stop(s, p) {
        lemma_plain_end(s, p + 1);
    }
}

/// A quoted field ends after where its inside starts, and in range.
pub proof fn lemma_quoted_scan(s: Seq<u8>, q: int, acc: Seq<u8>)
    requires
        0 <= q,
    ensures
        quoted_scan(s, q, acc) matches Some((_, e)) ==> q < e <= s.len(),
    decreases s.len() - q,
{
    if q < s.len() {
        if s[q] != QUOTE {
            lemma_quoted_scan(s, q + 1, acc.push(s[q]));
        } else if q + 1 < s.len() && s[q + 1] == QUOTE {
            lemma_quoted_scan(s, q + 2, acc.push(QUOTE));
        }
    }
}

/// A field ends at or after its start, in range, where a field may end.
pub proof fn lemma_field_at(s: Seq<u8>, p: int)
    requires
        0 <= p <= s.len(),
    ensures
        field_at(s, p) matches Some((_, e)) ==> p <= e <= s.len() && field_stop(s, e),
{
    if p < s.len() && s[p] == QUOTE {
        lemma_quoted_scan(s, p + 1, Seq::empty());
    } else {
        lemma_plain_end(s, p);
    }
}

/// A record has a field at least, and the next record starts in range
/// and, unless the text has ended, further on.
pub proof fn lemma_record_scan(s: Seq<u8>, p: int, acc: Seq<FieldView>)
    requires
        0 <= p <= s.len(),
    ensures
        record_scan(s, p, acc) matches Some((fields, next)) ==> p <= next <= s.len() && (p
            < s.len() ==> p < next) && fields.len() > acc.len(),
    decreases s.len() - p,
{
    lemma_field_at(s, p);
    match field_at(s, p) {
        None => {},
        Some((f, e)) => {
            if p <= e < s.len() && s[e] == COMMA {
                lemma_record_scan(s, e + 1, acc.push(f));
            }
        },
    }
}

/// The length of the line end at `p`.
fn line_end_at(s: &[u8], p: usize) -> (n: usize)
    requires
        p <= s.len(),
    ensures
        n == line_end_len(s@, p as int),
        p + n <= s.len(),
{
    if p < s.len() && s[p] == LINE_FEED {
        1
    } else if p < s.len() && s.len() - p > 1 && s[p] == CARRIAGE_RETURN && s[p + 1] == LINE_FEED {
        2
    } else {
        0
    }
}

/// Whether a field may end at `p`.
fn stops_at(s: &[u8], p: usize) -> (r: bool)
    requires
        p <= s.len(),
    ensures
        r == field_stop(s@, p as int),
{
    p >= s.len() || s[p] == COMMA || line_end_at(s, p) > 0
}

/// Reads the inside of a quoted field that starts at `start`.
fn read_quoted(s: &[u8], start: usize) -> (r: Option<(Vec<u8>, usize)>)
    requires
        start <= s.len(),
    ensures
        match r {
            Some((text, e)) => quoted_scan(s@, start as int, Seq::empty()) == Some(
                (text@, e as int),
            ) && start < e <= s.len(),
            None => quoted_scan(s@, start as int, Seq::empty()) is None,
        },
{
    let mut acc: Vec<u8> = Vec::new();
    let mut q: usize = start;
    while q < s.len()
        invariant
            start <= q <= s.len(),
            quoted_scan(s@, start as int, Seq::empty()) == quoted_scan(s@, q as int, acc@),
        decreases s.len() - q,
    {
        if s[q] != QUOTE {
            acc.push(s[q]);
            q += 1;
        } else if s.len() - q > 1 && s[q + 1] == QUOTE {
            acc.push(QUOTE);
            q += 2;
        } else {
            return Some((acc, q + 1));
        }
    }
    None
}

/// Reads the field that starts at `p`.
fn read_field(s: &[u8], p: usize) -> (r: Option<(Field, usize)>)
    requires
        p <= s.len(),
    ensures
        match r {
            Some((f, e)) => field_at(s@, p as int) == Some((f@, e as int)) && p <= e <= s.len()
                && field_stop(s@, e as int),
            None => field_at(s@, p as int) is None,
        },
{
    if p < s.len() && s[p] == QUOTE {
        match read_quoted(s, p + 1) {
            Some((text, e)) => if stops_at(s, e) {
                Some((Field { text, quoted: true }, e))
            } else {
                None
            },
            None => None,
        }
    } else {
        let mut e: usize = p;
        while !stops_at(s, e)
            invariant
                p <= e <= s.len(),
                plain_end(s@, p as int) == plain_end(s@, e as int),
            decreases s.len() - e,
        {
            e += 1;
        }
        Some((Field { text: copy_range(s, p, e), quoted: false }, e))
    }
}

/// Reads the record that starts at `p`.  Returns its fields and the
/// position of the next record, or `None` when the record is not well
/// quoted.  A record that starts before the end of the text is not
/// empty: the next record starts further on.
pub fn read_record(s: &[u8], p: usize) -> (r: Option<(Vec<Field>, usize)>)
    requires
        p <= s.len(),
    ensures
        match r {
            Some((fields, next)) => {
                &&& record_at(s@, p as int) == Some((field_views(fields@), next as int))
                &&& p <= next <= s.len()
                &&& p < s.len() ==> p < next
                &&& fields@.len() > 0
            },
            None => record_at(s@, p as int) is None,
        },
{
    let mut fields: Vec<Field> = Vec::new();
    let mut q: usize = p;
    proof {
        assert(field_views(fields@) =~= Seq::empty());
    }
    loop
        invariant
            p <= q <= s.len(),
            record_at(s@, p as int) == record_scan(s@, q as int, field_views(fields@)),
            q == p || p < s.len(),
        decreases s.len() - q,
    {
        match read_field(s, q) {
            None => {
                return None;
            },
            Some((f, e)) => {
                proof {
                    assert(field_views(fields@.push(f)) =~= field_views(fields@).push(f@));
                }
                if e < s.len() && s[e] == COMMA {
                    fields.push(f);
                    q = e + 1;
                } else {
                    let n = line_end_at(s, e);
                    fields.push(f);
                    return Some((fields, e + n));
                }
            },
        }
    }
}

} // verus!
