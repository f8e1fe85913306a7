//! Integers and booleans as text.

use vstd::prelude::*;
use crate::bytes::{MINUS, PLUS};

verus! {

/// Whether `b` is one of the ten decimal digits.
pub open spec fn is_digit(b: u8) -> bool {
    48 <= b <= 57
}

/// What a digit stands for; zero for any other byte.
pub open spec fn digit_of(b: u8) -> nat {
    if is_digit(b) {
        (b - 48) as nat
    } else {
        0
    }
}

/// Whether every byte of `s` is a digit.
pub open spec fn all_digits(s: Seq<u8>) -> bool {
    forall|i: int| 0 <= i < s.len() ==> is_digit(#[trigger] s[i])
}

/// The number that a string of digits writes in base ten.
pub open spec fn digits_value(s: Seq<u8>) -> nat
    decreases s.len(),
{
    if s.len() == 0 {
        0
    } else {
        digits_value(s.drop_last()) * 10 + digit_of(s.last())
    }
}

/// The integer that `s` writes: an optional sign, then one digit or
/// more, and nothing else.
pub open spec fn int_of_text(s: Seq<u8>) -> Option<int> {
    if s.len() == 0 {
        None
    } else if s[0] == MINUS || s[0] == PLUS {
        let body = s.subrange(1, s.len() as int);
        if body.len() > 0 && all_digits(body) {
            if s[0] == MINUS {
                Some(-(digits_value(body) as int))
            } else {
                Some(digits_value(body) as int)
            }
        } else {
            None
        }
    } else if all_digits(s) {
        Some(digits_value(s) as int)
    } else {
        None
    }
}

/// The 64-bit integer that `s` writes, if it writes one that fits.
pub open spec fn i64_of_text(s: Seq<u8>) -> Option<i64> {
    match int_of_text(s) {
        Some(v) => if i64::MIN <= v <= i64::MAX {
            Some(v as i64)
        } else {
            None
        },
        None => None,
    }
}

/// The 32-bit integer that `s` writes, if it writes one that fits.
pub open spec fn i32_of_text(s: Seq<u8>) -> Option<i32> {
    match int_of_text(s) {
        Some(v) => if i32::MIN <= v <= i32::MAX {
            Some(v as i32)
        } else {
            None
        },
        None => None,
    }
}

/// An upper-case Latin letter is mapped to its lower-case form, any
/// other byte to itself.
pub open spec fn lower(b: u8) -> u8 {
    if 65 <= b <= 90 {
        (b + 32) as u8
    } else {
        b
    }
}

/// `s` with every byte in lower case.
pub open spec fn lowered(s: Seq<u8>) -> Seq<u8> {
    Seq::new(s.len(), |i: int| lower(s[i]))
}

/// The boolean that `s` writes: `true` or `false`, in any mix of upper
/// and lower case.
pub open spec fn bool_of_text(s: Seq<u8>) -> Option<bool> {
    if lowered(s) == seq![116u8, 114u8, 117u8, 101u8] {
        Some(true)
    } else if lowered(s) == seq![102u8, 97u8, 108u8, 115u8, 101u8] {
        Some(false)
    } else {
        None
    }
}

/// Appending a digit multiplies by ten and adds the digit.
pub proof fn lemma_digits_push(s: Seq<u8>, b: u8)
    ensures
        digits_value(s.push(b)) == digits_value(s) * 10 + digit_of(b),
{
    assert(s.push(b).drop_last() =~= s);
}

/// The value of a prefix is at most the value of the whole.
pub proof fn lemma_digits_prefix(s: Seq<u8>, k: int)
    requires
        0 <= k <= s.len(),
    ensures
        digits_value(s.subrange(0, k)) <= digits_value(s),
    decreases s.len(),
{
    if k == s.len() {
        assert(s.subrange(0, k) =~= s);
    } else {
        lemma_digits_prefix(s.drop_last(), k);
        assert(s.drop_last().subrange(0, k) =~= s.subrange(0, k));
    }
}

/// The number written by the digits `s[from..]`, when they are digits,
/// at least one, and write no more than `limit`.
fn parse_digits(s: &[u8], from: usize, limit: u64) -> (r: Option<u64>)
    requires
        from <= s.len(),
    ensures
        r == ({
            let body = s@.subrange(from as int, s@.len() as int);
            if body.len() > 0 && all_digits(body) && digits_value(body) <= limit {
                Some(digits_value(body) as u64)
            } else {
                None
            }
        }),
{
    let ghost body = s@.subrange(from as int, s@.len() as int);
    if from >= s.len() {
        return None;
    }
    let mut acc: u64 = 0;
    let mut i: usize = from;
    while i < s.len()
        invariant
            from <= i <= s.len(),
            body == s@.subrange(from as int, s@.len() as int),
            all_digits(body.subrange(0, i - from)),
            acc == digits_value(body.subrange(0, i - from)),
            acc <= limit,
        decreases s.len() - i,
    {
        let b: u8 = s[i];
        if b < 48 || b > 57 {
            proof {
                assert(body[i - from] == b);
            }
            return None;
        }
        let d: u64 = (b - 48) as u64;
        proof {
            assert(body.subrange(0, i - from + 1) =~= body.subrange(0, i - from).push(b));
            lemma_digits_push(body.subrange(0, i - from), b);
            lemma_digits_prefix(body, i - from + 1);
        }
        if d > limit || acc > (limit - d) / 10 {
            return None;
        }
        acc = acc * 10 + d;
        i += 1;
    }
    proof {
        assert(body.subrange(0, i - from) =~= body);
    }
    Some(acc)
}

/// Reads a 64-bit integer: an optional sign and digits, in exact base
/// ten.  `None` for anything else and for a number that does not fit.
pub fn parse_i64(s: &[u8]) -> (r: Option<i64>)
    ensures
        r == i64_of_text(s@),
{
    if s.len() == 0 {
        return None;
    }
    if s[0] == MINUS {
        match parse_digits(s, 1, 9223372036854775808u64) {
            Some(m) => if m == 9223372036854775808u64 {
                Some(i64::MIN)
            } else {
                Some(-(m as i64))
            },
            None => None,
        }
    } else if s[0] == PLUS {
        match parse_digits(s, 1, 9223372036854775807u64) {
            Some(m) => Some(m as i64),
            None => None,
        }
    } else {
        proof {
            assert(s@.subrange(0, s@.len() as int) =~= s@);
        }
        match parse_digits(s, 0, 9223372036854775807u64) {
            Some(m) => Some(m as i64),
            None => None,
        }
    }
}

/// Reads a 32-bit integer: an optional sign and digits, in exact base
/// ten.  `None` for anything else and for a number that does not fit.
pub fn parse_i32(s: &[u8]) -> (r: Option<i32>)
    ensures
        r == i32_of_text(s@),
{
    if s.len() == 0 {
        return None;
    }
    if s[0] == MINUS {
        match parse_digits(s, 1, 2147483648u64) {
            Some(m) => if m == 2147483648u64 {
                Some(i32::MIN)
            } else {
                Some(-(m as i32))
            },
            None => None,
        }
    } else if s[0] == PLUS {
        match parse_digits(s, 1, 2147483647u64) {
            Some(m) => Some(m as i32),
            None => None,
        }
    } else {
        proof {
            assert(s@.subrange(0, s@.len() as int) =~= s@);
        }
        match parse_digits(s, 0, 2147483647u64) {
            Some(m) => Some(m as i32),
            None => None,
        }
    }
}

/// The lower-case form of a byte.
fn to_lower(b: u8) -> (r: u8)
    ensures
        r == lower(b),
{
    if 65 <= b && b <= 90 {
        b + 32
    } else {
        b
    }
}

/// Reads a boolean: `true` or `false` in any mix of cases.
pub fn parse_bool(s: &[u8]) -> (r: Option<bool>)
    ensures
        r == bool_of_text(s@),
{
    let ghost t = seq![116u8, 114u8, 117u8, 101u8];
    let ghost f = seq![102u8, 97u8, 108u8, 115u8, 101u8];
    proof {
        assert(t.len() == 4 && t[0] == 116 && t[1] == 114 && t[2] == 117 && t[3] == 101);
        assert(f.len() == 5 && f[0] == 102 && f[1] == 97 && f[2] == 108 && f[3] == 115 && f[4]
            == 101);
        assert(lowered(s@).len() == s@.len());
    }
    if s.len() == 4 {
        let ok = to_lower(s[0]) == 116 && to_lower(s[1]) == 114 && to_lower(s[2]) == 117
            && to_lower(s[3]) == 101;
        proof {
            let l = lowered(s@);
            assert(l[0] == lower(s@[0]) && l[1] == lower(s@[1]) && l[2] == lower(s@[2]) && l[3]
                == lower(s@[3]));
            if ok {
                assert(l =~= t);
            }
        }
        if ok {
            Some(true)
        } else {
            None
        }
    } else if s.len() == 5 {
        let ok = to_lower(s[0]) == 102 && to_lower(s[1]) == 97 && to_lower(s[2]) == 108
            && to_lower(s[3]) == 115 && to_lower(s[4]) == 101;
        proof {
            let l = lowered(s@);
            assert(l[0] == lower(s@[0]) && l[1] == lower(s@[1]) && l[2] == lower(s@[2]) && l[3]
                == lower(s@[3]) && l[4] == lower(s@[4]));
            if ok {
                assert(l =~= f);
            }
        }
        if ok {
            Some(false)
        } else {
            None
        }
    } else {
        None
    }
}

} // verus!
