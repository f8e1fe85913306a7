//! Small helpers on byte strings.

use vstd::prelude::*;

verus! {

pub const COMMA: u8 = 44;

pub const QUOTE: u8 = 34;

pub const LINE_FEED: u8 = 10;

pub const CARRIAGE_RETURN: u8 = 13;

pub const COLON: u8 = 58;

pub const PLUS: u8 = 43;

pub const MINUS: u8 = 45;

pub const DOT: u8 = 46;

pub const DIGIT_ZERO: u8 = 48;

/// The views of a sequence of byte vectors.
pub open spec fn views(v: Seq<Vec<u8>>) -> Seq<Seq<u8>> {
    Seq::new(v.len(), |i: int| v[i]@)
}

/// The first position at or after `from` that holds `b`, or the length
/// of `s` when there is none.
pub open spec fn find(s: Seq<u8>, b: u8, from: int) -> int
    decreases s.len() - from,
{
    if from < 0 || from >= s.len() {
        s.len() as int
    } else if s[from] == b {
        from
    } else {
        find(s, b, from + 1)
    }
}

/// `find` returns a position in range, holding `b` unless it is the
/// length, and nothing before it holds `b`.
pub proof fn lemma_find(s: Seq<u8>, b: u8, from: int)
    requires
        0 <= from <= s.len(),
    ensures
        from <= find(s, b, from) <= s.len(),
        find(s, b, from) < s.len() ==> s[find(s, b, from)] == b,
        forall|k: int| from <= k < find(s, b, from) ==> s[k] != b,
    decreases s.len() - from,
{
    if from < s.len() && s[from] != b {
        lemma_find(s, b, from + 1);
    }
}

/// Whether two byte strings hold the same bytes.
pub fn bytes_eq(a: &[u8], b: &[u8]) -> (r: bool)
    ensures
        r == (a@ == b@),
{
    if a.len() != b.len() {
        return false;
    }
    let mut i: usize = 0;
    while i < a.len()
        invariant
            a.len() == b.len(),
            i <= a.len(),
            forall|k: int| 0 <= k < i ==> a@[k] == b@[k],
        decreases a.len() - i,
    {
        if a[i] != b[i] {
            return false;
        }
        i += 1;
    }
    proof {
        assert(a@ =~= b@);
    }
    true
}

/// A fresh vector holding `a[lo..hi]`.
pub fn copy_range(a: &[u8], lo: usize, hi: usize) -> (r: Vec<u8>)
    requires
        lo <= hi <= a.len(),
    ensures
        r@ == a@.subrange(lo as int, hi as int),
{
    let mut out: Vec<u8> = Vec::new();
    let mut i: usize = lo;
    while i < hi
        invariant
            lo <= i <= hi <= a.len(),
            out@ == a@.subrange(lo as int, i as int),
        decreases hi - i,
    {
        out.push(a[i]);
        proof {
            assert(out@ =~= a@.subrange(lo as int, i + 1));
        }
        i += 1;
    }
    out
}

/// A fresh vector holding the bytes of `a`.
pub fn copy_bytes(a: &[u8]) -> (r: Vec<u8>)
    ensures
        r@ == a@,
{
    let r = copy_range(a, 0, a.len());
    proof {
        assert(a@.subrange(0, a@.len() as int) =~= a@);
    }
    r
}

/// The first position at or after `from` that holds `b`.
pub fn find_byte(a: &[u8], b: u8, from: usize) -> (r: usize)
    requires
        from <= a.len(),
    ensures
        r == find(a@, b, from as int),
        from <= r <= a.len(),
{
    let mut i: usize = from;
    while i < a.len() && a[i] != b
        invariant
            from <= i <= a.len(),
            find(a@, b, from as int) == find(a@, b, i as int),
        decreases a.len() - i,
    {
        i += 1;
    }
    proof {
        lemma_find(a@, b, i as int);
    }
    i
}

/// Whether the bytes `x` stand in `s` at `p`.
pub open spec fn occurs(s: Seq<u8>, p: int, x: Seq<u8>) -> bool {
    0 <= p && p + x.len() <= s.len() && s.subrange(p, p + x.len()) == x
}

/// Where bytes stand, the text holds them one by one.
pub proof fn lemma_occurs_at(s: Seq<u8>, p: int, x: Seq<u8>, k: int)
    requires
        occurs(s, p, x),
        0 <= k < x.len(),
    ensures
        s[p + k] == x[k],
{
    assert(s.subrange(p, p + x.len())[k] == x[k]);
}

/// Where two strings stand one after the other, each stands.
pub proof fn lemma_occurs_split(s: Seq<u8>, p: int, a: Seq<u8>, b: Seq<u8>)
    requires
        occurs(s, p, a + b),
    ensures
        occurs(s, p, a),
        occurs(s, p + a.len(), b),
{
    assert forall|k: int| 0 <= k < a.len() implies s[p + k] == a[k] by {
        lemma_occurs_at(s, p, a + b, k);
    }
    assert forall|k: int| 0 <= k < b.len() implies s[p + a.len() + k] == b[k] by {
        lemma_occurs_at(s, p, a + b, a.len() + k);
    }
    assert(s.subrange(p, p + a.len()) =~= a);
    assert(s.subrange(p + a.len(), p + a.len() + b.len()) =~= b);
}

/// Bytes that stand in a text at `p` are what the text holds from `p`
/// on, before the rest.
pub proof fn lemma_occurs_skip(s: Seq<u8>, p: int, x: Seq<u8>)
    requires
        occurs(s, p, x),
    ensures
        s.skip(p) == x + s.skip(p + x.len()),
{
    assert forall|k: int| 0 <= k < x.len() implies s[p + k] == x[k] by {
        lemma_occurs_at(s, p, x, k);
    }
    assert(s.skip(p) =~= x + s.skip(p + x.len()));
}

/// What stands in a part stands in the whole, further on by the place
/// of the part.
pub proof fn lemma_occurs_within(s: Seq<u8>, p: int, x: Seq<u8>, q: int, y: Seq<u8>)
    requires
        occurs(s, p, x),
        occurs(x, q, y),
    ensures
        occurs(s, p + q, y),
{
    assert forall|k: int| 0 <= k < y.len() implies s[p + q + k] == y[k] by {
        lemma_occurs_at(x, q, y, k);
        lemma_occurs_at(s, p, x, q + k);
    }
    assert(s.subrange(p + q, p + q + y.len()) =~= y);
}

/// The middle of three strings stands after the first.
pub proof fn lemma_occurs_middle(a: Seq<u8>, b: Seq<u8>, c: Seq<u8>)
    ensures
        occurs(a + b + c, a.len() as int, b),
        occurs(a + b + c, 0, a),
        occurs(a + b + c, (a.len() + b.len()) as int, c),
{
    let s = a + b + c;
    assert(s.subrange(a.len() as int, (a.len() + b.len()) as int) =~= b);
    assert(s.subrange(0, a.len() as int) =~= a);
    assert(s.subrange((a.len() + b.len()) as int, (a.len() + b.len() + c.len()) as int) =~= c);
}

} // verus!
