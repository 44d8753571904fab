//! Decimal temperature text and its value in tenths of a degree.
//!
//! A temperature is written as an optional sign, digits, and optionally a
//! point followed by more digits; at least one digit must be present. Its
//! value in tenths is rounded half away from zero and saturates at the
//! bounds of `i32`.

use vstd::prelude::*;
use crate::bytes::{index_of_byte, lemma_index_of_byte, lemma_index_of_byte_unique};

verus! {

/// ASCII `+`.
pub const PLUS: u8 = 0x2b;

/// ASCII `-`.
pub const MINUS: u8 = 0x2d;

/// ASCII `.`.
pub const POINT: u8 = 0x2e;

/// ASCII `0`.
pub const ZERO: u8 = 0x30;

/// Byte `b` is an ASCII decimal digit.
pub open spec fn is_digit(b: u8) -> bool {
    ZERO <= b <= ZERO + 9
}

/// The number that the digit `b` denotes; 0 for a byte that is no digit.
pub open spec fn digit_of(b: u8) -> nat {
    if is_digit(b) {
        (b - ZERO) as nat
    } else {
        0
    }
}

/// Every byte of `s` is an ASCII decimal digit.
pub open spec fn all_digits(s: Seq<u8>) -> bool {
    forall|i: int| 0 <= i < s.len() ==> is_digit(#[trigger] s[i])
}

/// The number that the digit string `s` denotes; the empty string denotes 0.
pub open spec fn digits_value(s: Seq<u8>) -> nat
    decreases s.len(),
{
    if s.len() == 0 {
        0
    } else {
        digits_value(s.drop_last()) * 10 + digit_of(s.last())
    }
}

/// `text` without its leading sign, if it has one.
pub open spec fn unsigned_part(text: Seq<u8>) -> Seq<u8> {
    if text.len() > 0 && (text[0] == PLUS || text[0] == MINUS) {
        text.skip(1)
    } else {
        text
    }
}

/// `text` starts with a minus sign.
pub open spec fn is_negative(text: Seq<u8>) -> bool {
    text.len() > 0 && text[0] == MINUS
}

/// What stands before the first point of the unsigned text `body`.
pub open spec fn whole_digits(body: Seq<u8>) -> Seq<u8> {
    body.take(index_of_byte(body, POINT))
}

/// What stands after the first point of the unsigned text `body`; empty if
/// there is no point.
pub open spec fn fraction_digits(body: Seq<u8>) -> Seq<u8> {
    let p = index_of_byte(body, POINT);
    if p < body.len() {
        body.skip(p + 1)
    } else {
        Seq::empty()
    }
}

/// `text` is a decimal number: an optional sign, then digits with at most one
/// point among them, and at least one digit in all.
pub open spec fn is_decimal(text: Seq<u8>) -> bool {
    let body = unsigned_part(text);
    &&& all_digits(whole_digits(body))
    &&& all_digits(fraction_digits(body))
    &&& whole_digits(body).len() + fraction_digits(body).len() > 0
}

/// The absolute value of the unsigned text `body` in tenths, rounded half
/// up: ten times the whole part, plus the first fraction digit, plus one if
/// the second fraction digit is 5 or more.
pub open spec fn magnitude_tenths(body: Seq<u8>) -> nat {
    let whole = whole_digits(body);
    let fraction = fraction_digits(body);
    let first: nat = if fraction.len() > 0 {
        digit_of(fraction[0])
    } else {
        0
    };
    let carry: nat = if fraction.len() > 1 && fraction[1] >= ZERO + 5 {
        1
    } else {
        0
    };
    digits_value(whole) * 10 + first + carry
}

/// `x` held to the range of `i32`.
pub open spec fn saturate(x: int) -> int {
    if x > i32::MAX {
        i32::MAX as int
    } else if x < i32::MIN {
        i32::MIN as int
    } else {
        x
    }
}

/// The value of the decimal number `text` in tenths: rounded to the nearest
/// tenth, halves away from zero, and saturated to `i32`.
pub open spec fn tenths_value(text: Seq<u8>) -> int {
    let magnitude = magnitude_tenths(unsigned_part(text));
    saturate(if is_negative(text) { -magnitude } else { magnitude as int })
}

/// Pushing a digit onto a digit string multiplies its value by ten and adds
/// the digit.
proof fn lemma_digits_value_push(s: Seq<u8>, d: u8)
    ensures
        digits_value(s.push(d)) == digits_value(s) * 10 + digit_of(d),
        digits_value(s.push(d)) >= digits_value(s),
{
    assert(s.push(d).drop_last() =~= s);
}

/// Ten to the power of `k`.
pub open spec fn pow10(k: nat) -> nat
    decreases k,
{
    if k == 0 {
        1
    } else {
        10 * pow10((k - 1) as nat)
    }
}

/// The value of two digit strings written one after the other: the first is
/// shifted by as many places as the second has digits. A digit string of `k`
/// digits denotes a number below `pow10(k)`.
proof fn lemma_digits_value_concat(a: Seq<u8>, b: Seq<u8>)
    ensures
        digits_value(a + b) == digits_value(a) * pow10(b.len()) + digits_value(b),
        digits_value(b) < pow10(b.len()),
    decreases b.len(),
{
    if b.len() == 0 {
        assert(a + b =~= a);
        assert(digits_value(a) * 1 == digits_value(a)) by (nonlinear_arith);
    } else {
        let front = b.drop_last();
        lemma_digits_value_concat(a, front);
        assert((a + b).drop_last() =~= a + front);
        assert((a + b).last() == b.last());
        let x = digits_value(a) as int;
        let y = digits_value(front) as int;
        let d = digit_of(b.last()) as int;
        let p = pow10(front.len()) as int;
        assert(pow10(b.len()) == 10 * p);
        assert(digits_value(a + front) == x * p + y);
        assert(digits_value(a + b) == (x * p + y) * 10 + d);
        assert(digits_value(b) == y * 10 + d);
        assert((x * p + y) * 10 + d == x * (10 * p) + (y * 10 + d)) by (nonlinear_arith);
    }
}

/// The magnitude in tenths is ten times the number written, rounded to the
/// nearest integer with a half going up. Here the number written, with its
/// point left out, is `v`, and `p` is ten to the number of its fraction
/// digits: the number itself is `v / p`, and the magnitude `m` is the one
/// integer with `m - 1/2 <= 10 * v / p < m + 1/2`.
pub proof fn lemma_magnitude_is_nearest(body: Seq<u8>)
    requires
        all_digits(whole_digits(body)),
        all_digits(fraction_digits(body)),
    ensures
        ({
            let v = digits_value(whole_digits(body) + fraction_digits(body));
            let p = pow10(fraction_digits(body).len());
            let m = magnitude_tenths(body);
            2 * m * p - p <= 2 * 10 * v < 2 * m * p + p
        }),
{
    let whole = whole_digits(body);
    let fraction = fraction_digits(body);
    let k = fraction.len();
    let p = pow10(k) as int;
    let w = digits_value(whole) as int;
    let f = digits_value(fraction) as int;
    let v = digits_value(whole + fraction) as int;
    let m = magnitude_tenths(body) as int;
    lemma_digits_value_concat(whole, fraction);
    assert(v == w * p + f);
    if k == 0 {
        assert(m == w * 10);
        assert(p == 1);
        assert(f == 0);
        assert(2 * m * p - p <= 2 * 10 * v < 2 * m * p + p) by (nonlinear_arith)
            requires
                v == w * p + f,
                p == 1,
                f == 0,
                m == w * 10,
        ;
    } else if k == 1 {
        assert(pow10(1) == 10 * pow10(0));
        assert(p == 10);
        assert(fraction.drop_last() =~= Seq::<u8>::empty());
        assert(digits_value(fraction.drop_last()) == 0);
        assert(fraction.last() == fraction[0]);
        assert(f == digit_of(fraction[0]));
        assert(m == w * 10 + f);
        assert(2 * m * p - p <= 2 * 10 * v < 2 * m * p + p) by (nonlinear_arith)
            requires
                v == w * p + f,
                p == 10,
                m == w * 10 + f,
        ;
    } else {
        let head = fraction.take(2);
        let rest = fraction.skip(2);
        assert(fraction =~= head + rest);
        lemma_digits_value_concat(head, rest);
        let q = pow10(rest.len()) as int;
        let r = digits_value(rest) as int;
        assert(pow10(k) == 10 * pow10((k - 1) as nat));
        assert(pow10((k - 1) as nat) == 10 * pow10((k - 2) as nat));
        assert(p == 100 * q);
        assert(head.drop_last() =~= seq![fraction[0]]);
        assert(seq![fraction[0]].drop_last() =~= Seq::<u8>::empty());
        assert(digits_value(Seq::<u8>::empty()) == 0);
        assert(digits_value(seq![fraction[0]]) == digit_of(fraction[0]));
        let f1 = digit_of(fraction[0]) as int;
        let f2 = digit_of(fraction[1]) as int;
        assert(head.last() == fraction[1]);
        assert(digits_value(head) == f1 * 10 + f2);
        assert(f == (f1 * 10 + f2) * q + r);
        assert(is_digit(fraction[0]) && is_digit(fraction[1]));
        let carry: int = if fraction[1] >= ZERO + 5 { 1 } else { 0 };
        assert(m == w * 10 + f1 + carry);
        assert(0 <= f2 <= 9 && (carry == 1 <==> f2 >= 5));
        assert(2 * m * p - p <= 2 * 10 * v < 2 * m * p + p) by (nonlinear_arith)
            requires
                v == w * p + f,
                f == (f1 * 10 + f2) * q + r,
                p == 100 * q,
                0 <= r < q,
                m == w * 10 + f1 + carry,
                0 <= f2 <= 9,
                carry == 1 <==> f2 >= 5,
                carry == 0 || carry == 1,
        ;
    }
}

/// Largest number that is still tracked exactly while digits are read;
/// anything beyond it is far outside `i32` once scaled to tenths.
const DIGITS_LIMIT: u64 = 1_000_000_000_000;

/// Reads the digits of `text` from index `from` up to the first byte that is
/// no digit. Returns the index of that byte, or the length of `text`, and the
/// number that the digits denote; a number above `DIGITS_LIMIT` is returned as
/// some number above that limit.
fn read_digits(text: &[u8], from: usize) -> (r: (usize, u64))
    requires
        from <= text@.len(),
    ensures
        from <= r.0 <= text@.len(),
        all_digits(text@.subrange(from as int, r.0 as int)),
        r.0 < text@.len() ==> !is_digit(text@[r.0 as int]),
        r.1 <= DIGITS_LIMIT * 10 + 9,
        r.1 < DIGITS_LIMIT ==> r.1 == digits_value(text@.subrange(from as int, r.0 as int)),
        r.1 >= DIGITS_LIMIT ==> digits_value(text@.subrange(from as int, r.0 as int))
            >= DIGITS_LIMIT,
{
    let mut i: usize = from;
    let mut value: u64 = 0;
    while i < text.len() && ZERO <= text[i] && text[i] <= ZERO + 9
        invariant
            from <= i <= text@.len(),
            all_digits(text@.subrange(from as int, i as int)),
            value <= DIGITS_LIMIT * 10 + 9,
            value <= digits_value(text@.subrange(from as int, i as int)),
            value < DIGITS_LIMIT ==> value == digits_value(text@.subrange(from as int, i as int)),
        decreases text@.len() - i,
    {
        let c = text[i];
        proof {
            let prefix = text@.subrange(from as int, i as int);
            assert(text@.subrange(from as int, i + 1) =~= prefix.push(c));
            lemma_digits_value_push(prefix, c);
        }
        if value < DIGITS_LIMIT {
            value = value * 10 + (c - ZERO) as u64;
        }
        i += 1;
    }
    (i, value)
}

/// The index at which the digits of `text` start: behind its sign, if it has
/// one.
pub open spec fn digits_start(text: Seq<u8>) -> int {
    if text.len() > 0 && (text[0] == PLUS || text[0] == MINUS) {
        1
    } else {
        0
    }
}

/// The parts of `text`, given that digits alone stand from its start to
/// index `point` and no digit stands at `point`: unless `point` is the end or
/// holds the first point, `text` is no decimal number; else the whole part
/// ends there and the fraction is what follows.
proof fn lemma_decimal_parts(text: Seq<u8>, point: int)
    requires
        digits_start(text) <= point <= text.len(),
        all_digits(text.subrange(digits_start(text), point)),
        point < text.len() ==> !is_digit(text[point]),
    ensures
        point < text.len() && text[point] != POINT ==> !is_decimal(text),
        point == text.len() || text[point] == POINT ==> {
            &&& whole_digits(unsigned_part(text)) == text.subrange(digits_start(text), point)
            &&& fraction_digits(unsigned_part(text)) == if point < text.len() {
                text.subrange(point + 1, text.len() as int)
            } else {
                Seq::empty()
            }
        },
{
    let start = digits_start(text);
    let body = unsigned_part(text);
    let end = point - start;
    assert(body =~= text.subrange(start, text.len() as int));
    lemma_index_of_byte(body, POINT);
    let p = index_of_byte(body, POINT);
    assert forall|j: int| 0 <= j < end implies body[j] != POINT by {
        assert(is_digit(text.subrange(start, point)[j]));
    }
    if point < text.len() && text[point] != POINT {
        assert(body[end] == text[point]);
        assert(p > end);
        assert(whole_digits(body)[end] == body[end]);
    } else {
        lemma_index_of_byte_unique(body, POINT, end);
        assert(whole_digits(body) =~= text.subrange(start, point));
        if point < text.len() {
            assert(fraction_digits(body) =~= text.subrange(point + 1, text.len() as int));
        }
    }
}

/// The tenths for a magnitude and a sign, saturated to `i32`.
fn signed_tenths(negative: bool, magnitude: u64) -> (t: i32)
    ensures
        t == saturate(if negative { -(magnitude as int) } else { magnitude as int }),
{
    if negative {
        if magnitude > 0x8000_0000 {
            i32::MIN
        } else {
            (-(magnitude as i64)) as i32
        }
    } else {
        if magnitude > 0x7fff_ffff {
            i32::MAX
        } else {
            magnitude as i32
        }
    }
}

/// Reads a decimal number and returns its value in tenths, or `None` if
/// `text` is not a decimal number.
pub fn parse_tenths(text: &[u8]) -> (r: Option<i32>)
    ensures
        r is Some <==> is_decimal(text@),
        r matches Some(t) ==> t == tenths_value(text@),
{
    let n = text.len();
    let start: usize = if n > 0 && (text[0] == PLUS || text[0] == MINUS) {
        1
    } else {
        0
    };
    let negative = n > 0 && text[0] == MINUS;
    let (point, whole) = read_digits(text, start);
    proof {
        lemma_decimal_parts(text@, point as int);
    }
    if point < n && text[point] != POINT {
        return None;
    }
    let fraction_start: usize = if point < n { point + 1 } else { n };
    let (end, _) = read_digits(text, fraction_start);
    let ghost fraction = text@.subrange(fraction_start as int, n as int);
    assert(fraction_digits(unsigned_part(text@)) =~= fraction);
    if end < n {
        assert(!is_digit(fraction[end - fraction_start]));
        return None;
    }
    if point - start + (n - fraction_start) == 0 {
        return None;
    }
    assert(is_decimal(text@));
    proof {
        if fraction.len() > 0 {
            assert(is_digit(fraction[0]));
        }
    }
    let first: u64 = if fraction_start < n {
        (text[fraction_start] - ZERO) as u64
    } else {
        0
    };
    let carry: u64 = if n - fraction_start > 1 && text[fraction_start + 1] >= ZERO + 5 {
        1
    } else {
        0
    };
    if whole >= DIGITS_LIMIT {
        return Some(if negative { i32::MIN } else { i32::MAX });
    }
    let magnitude: u64 = whole * 10 + first + carry;
    assert(magnitude == magnitude_tenths(unsigned_part(text@))) by {
        if fraction.len() > 1 {
            assert(fraction[1] == text@[fraction_start + 1]);
        }
    }
    Some(signed_tenths(negative, magnitude))
}

/// The decimal digits of `n`, most significant first, without leading zeros;
/// `0` is written as one digit.
pub open spec fn nat_digits(n: nat) -> Seq<u8>
    decreases n,
{
    if n < 10 {
        seq![(ZERO + n) as u8]
    } else {
        nat_digits(n / 10).push((ZERO + n % 10) as u8)
    }
}

/// The text of `t` tenths with exactly one fraction digit: a minus sign if
/// `t` is negative, the whole part of its magnitude, a point, and the tenths
/// digit.
pub open spec fn tenths_text(t: int) -> Seq<u8> {
    let m = if t < 0 { -t } else { t };
    let sign = if t < 0 { seq![MINUS] } else { Seq::<u8>::empty() };
    sign + nat_digits((m / 10) as nat) + seq![POINT, (ZERO + m % 10) as u8]
}

/// `nat_digits(n)` is a non-empty digit string that denotes `n`.
pub proof fn lemma_nat_digits(n: nat)
    ensures
        nat_digits(n).len() >= 1,
        all_digits(nat_digits(n)),
        digits_value(nat_digits(n)) == n,
    decreases n,
{
    if n < 10 {
        let s = nat_digits(n);
        assert(s.drop_last() =~= Seq::<u8>::empty());
        assert(digits_value(s.drop_last()) == 0);
    } else {
        lemma_nat_digits(n / 10);
        lemma_digits_value_push(nat_digits(n / 10), (ZERO + n % 10) as u8);
    }
}

/// Reading back the text of `t` tenths gives `t`.
pub proof fn lemma_tenths_round_trip(t: int)
    requires
        i32::MIN <= t <= i32::MAX,
    ensures
        is_decimal(tenths_text(t)),
        tenths_value(tenths_text(t)) == t,
{
    let m = if t < 0 { -t } else { t };
    let whole = nat_digits((m / 10) as nat);
    let tail = seq![POINT, (ZERO + m % 10) as u8];
    let text = tenths_text(t);
    let body = whole + tail;
    lemma_nat_digits((m / 10) as nat);
    if t < 0 {
        assert(text[0] == MINUS);
        assert(unsigned_part(text) =~= body);
    } else {
        assert(text =~= body);
        assert(text[0] == whole[0]);
        assert(is_digit(whole[0]));
        assert(unsigned_part(text) =~= body);
    }
    assert forall|j: int| 0 <= j < whole.len() implies body[j] != POINT by {
        assert(is_digit(whole[j]));
    }
    lemma_index_of_byte_unique(body, POINT, whole.len() as int);
    assert(whole_digits(body) =~= whole);
    assert(fraction_digits(body) =~= seq![(ZERO + m % 10) as u8]);
    assert(is_digit(fraction_digits(body)[0]));
}

/// Appends the decimal digits of `n` to `out`.
fn push_nat_digits(out: &mut Vec<u8>, n: u32)
    ensures
        final(out)@ == old(out)@ + nat_digits(n as nat),
    decreases n,
{
    if n >= 10 {
        push_nat_digits(out, n / 10);
    }
    out.push(ZERO + (n % 10) as u8);
    assert(out@ =~= old(out)@ + nat_digits(n as nat));
}

/// Appends the text of `t` tenths, with exactly one fraction digit, to `out`.
pub fn push_tenths(out: &mut Vec<u8>, t: i32)
    ensures
        final(out)@ == old(out)@ + tenths_text(t as int),
{
    let magnitude: u32 = if t < 0 {
        out.push(MINUS);
        (-(t as i64)) as u32
    } else {
        t as u32
    };
    push_nat_digits(out, magnitude / 10);
    out.push(POINT);
    out.push(ZERO + (magnitude % 10) as u8);
    assert(out@ =~= old(out)@ + tenths_text(t as int));
}

/// The text of `t` tenths with exactly one fraction digit.
pub fn format_tenths(t: i32) -> (text: Vec<u8>)
    ensures
        text@ == tenths_text(t as int),
{
    let mut text: Vec<u8> = Vec::new();
    push_tenths(&mut text, t);
    text
}

} // verus!
