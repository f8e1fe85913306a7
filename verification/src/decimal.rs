//! Decimal numbers: what the fractional columns hold.
//!
//! A field such as `-12.50e3` is kept exactly, as a sign, an integer
//! mantissa without trailing zeros and a power of ten.  Nothing is
//! rounded; a number that needs more than 64 bits of mantissa or more
//! than 32 bits of exponent is refused.

use vstd::prelude::*;
use crate::bytes::{copy_range, DOT, MINUS, PLUS};
use crate::number::{digits_value, i32_of_text, is_digit, lemma_digits_push, parse_i32};

verus! {

/// The number `(-1)^negative * mantissa * 10^exponent`.
#[derive(Clone, Copy, Debug, PartialEq, Eq, Structural)]
pub struct Decimal {
    pub negative: bool,
    pub mantissa: u64,
    pub exponent: i32,
}

/// Ten to the power `n`.
pub open spec fn pow10(n: nat) -> nat
    decreases n,
{
    if n == 0 {
        1
    } else {
        10 * pow10((n - 1) as nat)
    }
}

/// How many zeros end the decimal writing of `v`; none for zero.
pub open spec fn trailing_zeros(v: nat) -> nat
    decreases v,
{
    if v == 0 || v % 10 != 0 {
        0
    } else {
        1 + trailing_zeros(v / 10)
    }
}

/// `v` without the zeros that end its decimal writing.
pub open spec fn mantissa_of(v: nat) -> nat
    decreases v,
{
    if v == 0 || v % 10 != 0 {
        v
    } else {
        mantissa_of(v / 10)
    }
}

impl Decimal {
    /// A decimal is in normal form when its mantissa ends in no zero,
    /// and zero is written as `+0 * 10^0`.
    pub open spec fn wf(self) -> bool {
        if self.mantissa == 0 {
            !self.negative && self.exponent == 0
        } else {
            self.mantissa % 10 != 0
        }
    }

    /// The size of the number, scaled by `10^(2^31)` to make it an
    /// integer.
    pub open spec fn magnitude(self) -> int {
        self.mantissa * pow10((self.exponent + 2147483648) as nat)
    }

    /// The number itself, scaled by `10^(2^31)`.  Two decimals compare
    /// as their keys do.
    pub open spec fn key(self) -> int {
        if self.negative {
            -self.magnitude()
        } else {
            self.magnitude()
        }
    }
}

/// Where the run of digits that starts at `from` ends.
pub open spec fn digits_end(s: Seq<u8>, from: int) -> int
    decreases s.len() - from,
{
    if 0 <= from < s.len() && is_digit(s[from]) {
        digits_end(s, from + 1)
    } else {
        from
    }
}

/// The decimal with the given sign, digits and power of ten, brought to
/// normal form; `None` when its mantissa or exponent does not fit.
pub open spec fn decimal_of_parts(negative: bool, digits: nat, exponent: int) -> Option<Decimal> {
    if digits == 0 {
        Some(Decimal { negative: false, mantissa: 0, exponent: 0 })
    } else {
        let m = mantissa_of(digits);
        let e = exponent + trailing_zeros(digits);
        if m <= u64::MAX && i32::MIN <= e <= i32::MAX {
            Some(Decimal { negative, mantissa: m as u64, exponent: e as i32 })
        } else {
            None
        }
    }
}

/// The decimal that `s` writes.  The accepted form is an optional sign,
/// digits with an optional point among them (one digit at least), and
/// an optional exponent: `e` or `E` and a 32-bit integer.
pub open spec fn decimal_of_text(s: Seq<u8>) -> Option<Decimal> {
    let signed = s.len() > 0 && (s[0] == MINUS || s[0] == PLUS);
    let start: int = if signed { 1 } else { 0 };
    let negative = s.len() > 0 && s[0] == MINUS;
    let int_end = digits_end(s, start);
    let has_point = int_end < s.len() && s[int_end] == DOT;
    let frac_start = if has_point { int_end + 1 } else { int_end };
    let frac_end = if has_point { digits_end(s, frac_start) } else { int_end };
    let digits = s.subrange(start, int_end) + s.subrange(frac_start, frac_end);
    if digits.len() == 0 {
        None
    } else if frac_end == s.len() {
        decimal_of_parts(negative, digits_value(digits), -(frac_end - frac_start))
    } else if s[frac_end] == 101 || s[frac_end] == 69 {
        match i32_of_text(s.subrange(frac_end + 1, s.len() as int)) {
            Some(e) => decimal_of_parts(
                negative,
                digits_value(digits),
                e - (frac_end - frac_start),
            ),
            None => None,
        }
    } else {
        None
    }
}

/// A power of ten is positive.
pub proof fn lemma_pow10_positive(n: nat)
    ensures
        pow10(n) > 0,
    decreases n,
{
    if n > 0 {
        lemma_pow10_positive((n - 1) as nat);
    }
}

/// Powers of ten multiply as their exponents add.
pub proof fn lemma_pow10_add(a: nat, b: nat)
    ensures
        pow10(a + b) == pow10(a) * pow10(b),
    decreases a,
{
    if a > 0 {
        lemma_pow10_add((a - 1) as nat, b);
        let x = pow10((a - 1) as nat) as int;
        let y = pow10(b) as int;
        assert((a + b - 1) as nat == (a - 1) as nat + b);
        assert(pow10(a + b) == 10 * pow10((a + b - 1) as nat));
        assert(pow10(a) == 10 * x);
        assert(10 * (x * y) == (10 * x) * y) by (nonlinear_arith);
    } else {
        assert(pow10(0) == 1);
        assert(1 * pow10(b) == pow10(b)) by (nonlinear_arith);
    }
}

/// A larger exponent gives a power of ten that is no smaller.
pub proof fn lemma_pow10_monotone(a: nat, b: nat)
    requires
        a <= b,
    ensures
        pow10(a) <= pow10(b),
    decreases b,
{
    if a < b {
        lemma_pow10_monotone(a, (b - 1) as nat);
        lemma_pow10_positive((b - 1) as nat);
    }
}

/// The powers of ten just below and just above 64 bits.
proof fn lemma_pow10_values()
    ensures
        pow10(19) == 10000000000000000000,
        pow10(20) == 100000000000000000000,
{
    reveal_with_fuel(pow10, 21);
}

/// A number is its mantissa times ten to the number of its trailing
/// zeros, and the mantissa of a positive number ends in no zero.
pub proof fn lemma_mantissa(v: nat)
    ensures
        v == mantissa_of(v) * pow10(trailing_zeros(v)),
        v > 0 ==> mantissa_of(v) > 0 && mantissa_of(v) % 10 != 0,
        v == 0 ==> mantissa_of(v) == 0 && trailing_zeros(v) == 0,
        mantissa_of(v) <= v,
    decreases v,
{
    if v != 0 && v % 10 == 0 {
        let w = v / 10;
        lemma_mantissa(w);
        let m = mantissa_of(w) as int;
        let p = pow10(trailing_zeros(w)) as int;
        assert(v == 10 * w);
        assert(pow10(trailing_zeros(v)) == 10 * p);
        assert(m * (10 * p) == 10 * (m * p)) by (nonlinear_arith);
    } else {
        assert(pow10(0) == 1);
        assert(v * 1 == v) by (nonlinear_arith);
    }
}

/// Writing one more digit after `v` does not shrink the mantissa.  A
/// digit other than zero ends the trailing zeros; a zero after a
/// positive number adds one to them and keeps the mantissa.
proof fn lemma_mantissa_step(v: nat, d: nat)
    requires
        d <= 9,
    ensures
        mantissa_of(v * 10 + d) >= mantissa_of(v),
        d != 0 ==> mantissa_of(v * 10 + d) == v * 10 + d && trailing_zeros(v * 10 + d) == 0,
        d == 0 && v > 0 ==> mantissa_of(v * 10) == mantissa_of(v) && trailing_zeros(v * 10)
            == trailing_zeros(v) + 1,
{
    lemma_mantissa(v);
    if d == 0 && v > 0 {
        assert((v * 10) % 10 == 0);
        assert((v * 10) / 10 == v);
    }
}

/// What has been read of a number's digits: its mantissa and trailing
/// zeros so far, or the fact that the mantissa no longer fits.
struct Scan {
    mantissa: u64,
    zeros: usize,
    over: bool,
}

/// Whether `sc` is what has been read of the number `v`, written in
/// `count` digits.
spec fn scan_ok(sc: Scan, v: nat, count: nat) -> bool {
    &&& sc.zeros <= count
    &&& sc.over ==> mantissa_of(v) > u64::MAX
    &&& !sc.over ==> sc.mantissa == mantissa_of(v) && sc.zeros == trailing_zeros(v)
}

/// `m * 10^k`, or `None` when that needs more than 64 bits.
fn scale_up(m: u64, k: usize) -> (r: Option<u64>)
    requires
        m > 0,
    ensures
        match r {
            Some(x) => x == m * pow10(k as nat),
            None => m * pow10(k as nat) > u64::MAX,
        },
{
    let mut cur: u64 = m;
    let mut j: usize = 0;
    proof {
        assert(pow10(0) == 1);
        assert(m * 1 == m) by (nonlinear_arith);
    }
    while j < k
        invariant
            j <= k,
            m > 0,
            cur == m * pow10(j as nat),
        decreases k - j,
    {
        proof {
            lemma_pow10_monotone((j + 1) as nat, k as nat);
            assert(m * pow10((j + 1) as nat) == (m * pow10(j as nat)) * 10) by (nonlinear_arith)
                requires
                    pow10((j + 1) as nat) == 10 * pow10(j as nat),
            ;
            assert(m * pow10((j + 1) as nat) <= m * pow10(k as nat)) by (nonlinear_arith)
                requires
                    pow10((j + 1) as nat) <= pow10(k as nat),
                    m > 0,
            ;
        }
        if cur > u64::MAX / 10 {
            return None;
        }
        cur = cur * 10;
        j += 1;
    }
    Some(cur)
}

/// Takes one more digit into what has been read.
fn feed(sc: Scan, d: u8, Ghost(v): Ghost<nat>, Ghost(count): Ghost<nat>) -> (r: Scan)
    requires
        d <= 9,
        scan_ok(sc, v, count),
        count < usize::MAX,
    ensures
        scan_ok(r, v * 10 + d as nat, count + 1),
{
    proof {
        lemma_mantissa_step(v, d as nat);
        lemma_mantissa(v);
    }
    if sc.over {
        sc
    } else if d == 0 {
        if sc.mantissa == 0 {
            sc
        } else {
            Scan { mantissa: sc.mantissa, zeros: sc.zeros + 1, over: false }
        }
    } else if sc.mantissa == 0 {
        Scan { mantissa: d as u64, zeros: 0, over: false }
    } else {
        proof {
            let m = sc.mantissa as nat;
            let p = pow10(sc.zeros as nat);
            assert(m * pow10((sc.zeros + 1) as nat) == (m * p) * 10) by (nonlinear_arith)
                requires
                    pow10((sc.zeros + 1) as nat) == 10 * p,
            ;
        }
        match scale_up(sc.mantissa, sc.zeros + 1) {
            None => Scan { mantissa: 0, zeros: 0, over: true },
            Some(x) => {
                if x > u64::MAX - d as u64 {
                    Scan { mantissa: 0, zeros: 0, over: true }
                } else {
                    Scan { mantissa: x + d as u64, zeros: 0, over: false }
                }
            },
        }
    }
}

/// Reads the run of digits at `from`, after the digits `prior`.
fn scan_digits(s: &[u8], from: usize, sc0: Scan, Ghost(prior): Ghost<Seq<u8>>) -> (r: (
    usize,
    Scan,
))
    requires
        from <= s.len(),
        prior.len() <= from,
        scan_ok(sc0, digits_value(prior), prior.len()),
    ensures
        r.0 == digits_end(s@, from as int),
        from <= r.0 <= s.len(),
        scan_ok(
            r.1,
            digits_value(prior + s@.subrange(from as int, r.0 as int)),
            (prior.len() + r.0 - from) as nat,
        ),
{
    let mut i: usize = from;
    let mut sc = sc0;
    proof {
        assert(prior + s@.subrange(from as int, from as int) =~= prior);
    }
    while i < s.len() && 48 <= s[i] && s[i] <= 57
        invariant
            from <= i <= s.len(),
            prior.len() <= from,
            digits_end(s@, from as int) == digits_end(s@, i as int),
            scan_ok(
                sc,
                digits_value(prior + s@.subrange(from as int, i as int)),
                (prior.len() + i - from) as nat,
            ),
        decreases s.len() - i,
    {
        let b: u8 = s[i];
        proof {
            let before = prior + s@.subrange(from as int, i as int);
            assert(prior + s@.subrange(from as int, i + 1) =~= before.push(b));
            lemma_digits_push(before, b);
        }
        sc =
        feed(
            sc,
            b - 48,
            Ghost(digits_value(prior + s@.subrange(from as int, i as int))),
            Ghost((prior.len() + i - from) as nat),
        );
        i += 1;
    }
    (i, sc)
}

/// The decimal made of what was read, a sign and a power of ten.
fn finish(negative: bool, sc: Scan, exponent: i128, Ghost(v): Ghost<nat>, Ghost(count): Ghost<
    nat,
>) -> (r: Option<Decimal>)
    requires
        scan_ok(sc, v, count),
        -0x1_0000_0000_0000_0000_0000 <= exponent <= 0x1_0000_0000_0000_0000_0000,
    ensures
        r == decimal_of_parts(negative, v, exponent as int),
{
    proof {
        lemma_mantissa(v);
    }
    if sc.over {
        None
    } else if sc.mantissa == 0 {
        Some(Decimal { negative: false, mantissa: 0, exponent: 0 })
    } else {
        let e: i128 = exponent + sc.zeros as i128;
        if e < -2147483648 || e > 2147483647 {
            None
        } else {
            Some(Decimal { negative, mantissa: sc.mantissa, exponent: e as i32 })
        }
    }
}

/// Reads a decimal number in plain or exponent writing.  `None` for
/// anything else and for a number that does not fit.
pub fn parse_decimal(s: &[u8]) -> (r: Option<Decimal>)
    ensures
        r == decimal_of_text(s@),
{
    let n = s.len();
    let signed = n > 0 && (s[0] == MINUS || s[0] == PLUS);
    let negative = n > 0 && s[0] == MINUS;
    let start: usize = if signed { 1 } else { 0 };
    let first = Scan { mantissa: 0, zeros: 0, over: false };
    proof {
        lemma_mantissa(0);
        assert(digits_value(Seq::<u8>::empty()) == 0);
    }
    let (int_end, sc1) = scan_digits(s, start, first, Ghost(Seq::<u8>::empty()));
    proof {
        assert(Seq::<u8>::empty() + s@.subrange(start as int, int_end as int) =~= s@.subrange(
            start as int,
            int_end as int,
        ));
    }
    let has_point = int_end < n && s[int_end] == DOT;
    let frac_start: usize = if has_point { int_end + 1 } else { int_end };
    let ghost int_digits = s@.subrange(start as int, int_end as int);
    let (frac_end, sc2) = if has_point {
        scan_digits(s, frac_start, sc1, Ghost(int_digits))
    } else {
        proof {
            assert(int_digits + s@.subrange(frac_start as int, int_end as int) =~= int_digits);
        }
        (int_end, sc1)
    };
    let ghost digits = int_digits + s@.subrange(frac_start as int, frac_end as int);
    if int_end - start + (frac_end - frac_start) == 0 {
        return None;
    }
    let places: usize = frac_end - frac_start;
    if frac_end == n {
        finish(negative, sc2, -(places as i128), Ghost(digits_value(digits)), Ghost(digits.len()))
    } else if s[frac_end] == 101 || s[frac_end] == 69 {
        let tail = copy_range(s, frac_end + 1, n);
        match parse_i32(tail.as_slice()) {
            Some(e) => finish(
                negative,
                sc2,
                e as i128 - places as i128,
                Ghost(digits_value(digits)),
                Ghost(digits.len()),
            ),
            None => None,
        }
    } else {
        None
    }
}

/// The sign and size of a product do not change the order when both
/// sides are scaled alike.
proof fn lemma_scaled_lt(a: int, b: int, p: int)
    requires
        p > 0,
    ensures
        (a * p < b * p) == (a < b),
{
    assert((a * p < b * p) == (a < b)) by (nonlinear_arith)
        requires
            p > 0,
    ;
}

/// `10^d` for a small `d`.
fn pow10_small(d: u32) -> (r: u128)
    requires
        d <= 19,
    ensures
        r == pow10(d as nat),
        r <= 10000000000000000000,
{
    let mut r: u128 = 1;
    let mut i: u32 = 0;
    while i < d
        invariant
            i <= d <= 19,
            r == pow10(i as nat),
            r <= 10000000000000000000,
        decreases d - i,
    {
        proof {
            lemma_pow10_monotone((i + 1) as nat, 19);
            lemma_pow10_values();
        }
        r = r * 10;
        i += 1;
    }
    r
}

/// Whether `m * 10^d < other`, for 64-bit `m` and `other`.
fn scaled_below(m: u64, d: i64, other: u64) -> (r: bool)
    requires
        d >= 0,
    ensures
        r == (m * pow10(d as nat) < other),
{
    if m == 0 {
        proof {
            assert(0 * pow10(d as nat) == 0) by (nonlinear_arith);
        }
        other > 0
    } else if d >= 20 {
        proof {
            lemma_pow10_monotone(20, d as nat);
            lemma_pow10_values();
            assert(m * pow10(d as nat) >= pow10(d as nat)) by (nonlinear_arith)
                requires
                    m >= 1,
            ;
        }
        false
    } else {
        let p = pow10_small(d as u32);
        proof {
            assert(m * p <= 18446744073709551615 * 10000000000000000000) by (nonlinear_arith)
                requires
                    m <= 18446744073709551615,
                    p <= 10000000000000000000,
                    0 <= m,
                    0 <= p,
            ;
        }
        (m as u128) * p < other as u128
    }
}

/// Whether `a` is smaller than `b` in size.
fn magnitude_lt(a: Decimal, b: Decimal) -> (r: bool)
    ensures
        r == (a.magnitude() < b.magnitude()),
{
    if a.exponent >= b.exponent {
        let d: i64 = a.exponent as i64 - b.exponent as i64;
        proof {
            let x = (b.exponent + 2147483648) as nat;
            let px = pow10(x) as int;
            let pd = pow10(d as nat) as int;
            let ma = a.mantissa as int;
            let mb = b.mantissa as int;
            lemma_pow10_add(d as nat, x);
            lemma_pow10_positive(x);
            assert((a.exponent + 2147483648) as nat == d as nat + x);
            assert(ma * (pd * px) == (ma * pd) * px) by (nonlinear_arith);
            lemma_scaled_lt(ma * pd, mb, px);
        }
        scaled_below(a.mantissa, d, b.mantissa)
    } else {
        let d: i64 = b.exponent as i64 - a.exponent as i64;
        proof {
            let x = (a.exponent + 2147483648) as nat;
            let px = pow10(x) as int;
            let pd = pow10(d as nat) as int;
            let ma = a.mantissa as int;
            let mb = b.mantissa as int;
            lemma_pow10_add(d as nat, x);
            lemma_pow10_positive(x);
            assert((b.exponent + 2147483648) as nat == d as nat + x);
            assert(mb * (pd * px) == (mb * pd) * px) by (nonlinear_arith);
            lemma_scaled_lt(ma, mb * pd, px);
            lemma_scaled_lt(mb * pd, ma, px);
        }
        !scaled_below(b.mantissa, d, a.mantissa) && !scaled_equal(b.mantissa, d, a.mantissa)
    }
}

/// Whether `m * 10^d == other`, for 64-bit `m` and `other`.
fn scaled_equal(m: u64, d: i64, other: u64) -> (r: bool)
    requires
        d >= 0,
    ensures
        r == (m * pow10(d as nat) == other),
{
    if m == 0 {
        proof {
            assert(0 * pow10(d as nat) == 0) by (nonlinear_arith);
        }
        other == 0
    } else if d >= 20 {
        proof {
            lemma_pow10_monotone(20, d as nat);
            lemma_pow10_values();
            assert(m * pow10(d as nat) >= pow10(d as nat)) by (nonlinear_arith)
                requires
                    m >= 1,
            ;
        }
        false
    } else {
        let p = pow10_small(d as u32);
        proof {
            assert(m * p <= 18446744073709551615 * 10000000000000000000) by (nonlinear_arith)
                requires
                    m <= 18446744073709551615,
                    p <= 10000000000000000000,
                    0 <= m,
                    0 <= p,
            ;
        }
        (m as u128) * p == other as u128
    }
}

/// A number that was read is in normal form.
pub proof fn lemma_decimal_normal(s: Seq<u8>)
    ensures
        decimal_of_text(s) matches Some(d) ==> d.wf(),
{
    let signed = s.len() > 0 && (s[0] == MINUS || s[0] == PLUS);
    let start: int = if signed {
        1
    } else {
        0
    };
    let int_end = digits_end(s, start);
    let has_point = int_end < s.len() && s[int_end] == DOT;
    let frac_start = if has_point {
        int_end + 1
    } else {
        int_end
    };
    let frac_end = if has_point {
        digits_end(s, frac_start)
    } else {
        int_end
    };
    let digits = s.subrange(start, int_end) + s.subrange(frac_start, frac_end);
    lemma_mantissa(digits_value(digits));
}

/// Whether `a` is the smaller number.
pub fn decimal_lt(a: Decimal, b: Decimal) -> (r: bool)
    ensures
        r == (a.key() < b.key()),
{
    if a.negative {
        if b.negative {
            magnitude_lt(b, a)
        } else {
            proof {
                lemma_pow10_positive((a.exponent + 2147483648) as nat);
                lemma_pow10_positive((b.exponent + 2147483648) as nat);
                let pa = pow10((a.exponent + 2147483648) as nat) as int;
                let pb = pow10((b.exponent + 2147483648) as nat) as int;
                let ma = a.mantissa as int;
                let mb = b.mantissa as int;
                assert((ma * pa > 0) == (ma > 0)) by (nonlinear_arith)
                    requires
                        pa > 0,
                        ma >= 0,
                ;
                assert((mb * pb > 0) == (mb > 0)) by (nonlinear_arith)
                    requires
                        pb > 0,
                        mb >= 0,
                ;
            }
            a.mantissa > 0 || b.mantissa > 0
        }
    } else if b.negative {
        false
    } else {
        magnitude_lt(a, b)
    }
}

} // verus!
