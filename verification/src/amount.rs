//! Monetary amounts as decimal text.
//!
//! An amount is a signed count of ten-thousandths of a currency unit. Its
//! text is an optional sign, decimal digits, and optionally a point and
//! more digits; at least one digit must be there. Digits after the fourth
//! decimal place round the amount half away from zero. Amounts are written
//! with exactly four decimal places.

use vstd::prelude::*;

verus! {

/// Ten-thousandths in one currency unit.
pub const SCALE: i64 = 10_000;

pub const DIGIT_ZERO: u8 = 48;

pub const DIGIT_NINE: u8 = 57;

pub const MINUS: u8 = 45;

pub const PLUS: u8 = 43;

pub const POINT: u8 = 46;

pub open spec fn is_digit(b: u8) -> bool {
    DIGIT_ZERO <= b <= DIGIT_NINE
}

pub open spec fn all_digits(s: Seq<u8>) -> bool {
    forall|i: int| 0 <= i < s.len() ==> is_digit(#[trigger] s[i])
}

/// The number that a run of decimal digits writes.
pub open spec fn digits_value(s: Seq<u8>) -> nat
    decreases s.len(),
{
    if s.len() == 0 {
        0
    } else {
        digits_value(s.drop_last()) * 10 + (s.last() - DIGIT_ZERO) as nat
    }
}

/// The digit at place `i` of a run, zero beyond its end.
pub open spec fn digit_at(s: Seq<u8>, i: int) -> int {
    if 0 <= i < s.len() {
        s[i] - DIGIT_ZERO
    } else {
        0
    }
}

/// Ten-thousandths that the digits after the point stand for: the first
/// four places, and one more where the fifth place is five or above.
pub open spec fn fraction_units(frac: Seq<u8>) -> int {
    digit_at(frac, 0) * 1000 + digit_at(frac, 1) * 100 + digit_at(frac, 2) * 10 + digit_at(frac, 3)
        + if digit_at(frac, 4) >= 5 {
        1int
    } else {
        0int
    }
}

/// `p` is where the first point of `s` stands, or the length of `s` where
/// it holds none.
pub open spec fn is_point_position(s: Seq<u8>, p: int) -> bool {
    &&& 0 <= p <= s.len()
    &&& p < s.len() ==> s[p] == POINT
    &&& forall|j: int| 0 <= j < p ==> #[trigger] s[j] != POINT
}

pub open spec fn point_position(s: Seq<u8>) -> int {
    choose|p: int| is_point_position(s, p)
}

pub open spec fn has_sign(s: Seq<u8>) -> bool {
    s.len() > 0 && (s[0] == MINUS || s[0] == PLUS)
}

/// The text without its sign.
pub open spec fn unsigned_part(s: Seq<u8>) -> Seq<u8> {
    if has_sign(s) {
        s.skip(1)
    } else {
        s
    }
}

/// What stands before the point.
pub open spec fn whole_part(s: Seq<u8>) -> Seq<u8> {
    unsigned_part(s).take(point_position(unsigned_part(s)))
}

/// What stands after the point.
pub open spec fn fraction_part(s: Seq<u8>) -> Seq<u8> {
    let body = unsigned_part(s);
    if point_position(body) < body.len() {
        body.skip(point_position(body) + 1)
    } else {
        Seq::empty()
    }
}

/// The text is a decimal number.
pub open spec fn is_decimal(s: Seq<u8>) -> bool {
    &&& all_digits(whole_part(s))
    &&& all_digits(fraction_part(s))
    &&& whole_part(s).len() + fraction_part(s).len() > 0
}

/// Ten-thousandths that a decimal number stands for.
pub open spec fn decimal_value(s: Seq<u8>) -> int {
    let magnitude = digits_value(whole_part(s)) * SCALE + fraction_units(fraction_part(s));
    if s.len() > 0 && s[0] == MINUS {
        -magnitude
    } else {
        magnitude
    }
}

/// The amount that a text stands for: that of a decimal number that fits
/// in 64 bits, and none otherwise.
pub open spec fn amount_of(s: Seq<u8>) -> Option<i64> {
    if is_decimal(s) && i64::MIN <= decimal_value(s) <= i64::MAX {
        Some(decimal_value(s) as i64)
    } else {
        None
    }
}

/// The digits that write `n`, without leading zeros.
pub open spec fn decimal_digits(n: nat) -> Seq<u8>
    decreases n,
{
    if n < 10 {
        seq![(DIGIT_ZERO + n) as u8]
    } else {
        decimal_digits(n / 10).push((DIGIT_ZERO + n % 10) as u8)
    }
}

/// The four decimal places of `n` ten-thousandths.
pub open spec fn four_digits(n: nat) -> Seq<u8> {
    seq![
        (DIGIT_ZERO + n / 1000 % 10) as u8,
        (DIGIT_ZERO + n % 1000 / 100) as u8,
        (DIGIT_ZERO + n % 100 / 10) as u8,
        (DIGIT_ZERO + n % 10) as u8,
    ]
}

/// The text of `v` ten-thousandths: a minus sign where `v` is negative, the
/// whole units, a point, and four decimal places.
pub open spec fn rendered(v: int) -> Seq<u8> {
    let magnitude = if v < 0 {
        -v
    } else {
        v
    };
    let sign = if v < 0 {
        seq![MINUS]
    } else {
        Seq::<u8>::empty()
    };
    sign + decimal_digits((magnitude / (SCALE as int)) as nat) + seq![POINT] + four_digits(
        (magnitude % (SCALE as int)) as nat,
    )
}

/// The first point of a text stands in one place only.
pub proof fn lemma_point_position(s: Seq<u8>, p: int)
    requires
        is_point_position(s, p),
    ensures
        point_position(s) == p,
{
    let q = point_position(s);
    assert(is_point_position(s, q));
    if q < p {
        assert(s[q] != POINT);
    } else if p < q {
        assert(s[p] != POINT);
    }
}

/// Every text has a place where its first point stands.
pub proof fn lemma_point_position_exists(s: Seq<u8>)
    ensures
        is_point_position(s, point_position(s)),
{
    lemma_point_after(s, 0);
}

proof fn lemma_point_after(s: Seq<u8>, k: int)
    requires
        0 <= k <= s.len(),
        forall|j: int| 0 <= j < k ==> #[trigger] s[j] != POINT,
    ensures
        exists|p: int| is_point_position(s, p),
    decreases s.len() - k,
{
    if k < s.len() && s[k] != POINT {
        lemma_point_after(s, k + 1);
    } else {
        assert(is_point_position(s, k));
    }
}

/// A byte that is neither a digit nor a point, after digits only, leaves
/// what stands before the point with a byte that is no digit.
proof fn lemma_stray_byte(s: Seq<u8>, k: int)
    requires
        0 <= k < s.len(),
        !is_digit(s[k]),
        s[k] != POINT,
        forall|j: int| 0 <= j < k ==> is_digit(#[trigger] s[j]),
    ensures
        !all_digits(s.take(point_position(s))),
{
    lemma_point_position_exists(s);
    let q = point_position(s);
    if q <= k {
        if q < k {
            assert(is_digit(s[q]));
        }
        assert(false);
    }
    assert(s.take(q)[k] == s[k]);
}

/// Whole units at or beyond which an amount cannot fit in 64 bits.
const WHOLE_CAP: u64 = 1_000_000_000_000_000;

/// `v`, or the cap where `v` reaches it.
spec fn capped(v: nat) -> nat {
    if v < WHOLE_CAP {
        v
    } else {
        WHOLE_CAP as nat
    }
}

fn is_digit_byte(b: u8) -> (r: bool)
    ensures
        r == is_digit(b),
{
    b >= DIGIT_ZERO && b <= DIGIT_NINE
}

/// Reads digits from `from` up to the first byte that is none, and hands
/// back where it stopped and the number read, capped.
fn scan_digits(text: &[u8], from: usize) -> (r: (usize, u64))
    requires
        from <= text@.len(),
    ensures
        from <= r.0 <= text@.len(),
        all_digits(text@.subrange(from as int, r.0 as int)),
        r.0 < text@.len() ==> !is_digit(text@[r.0 as int]),
        r.1 == capped(digits_value(text@.subrange(from as int, r.0 as int))),
{
    let n = text.len();
    let mut i: usize = from;
    let mut whole: u64 = 0;
    while i < n && is_digit_byte(text[i])
        invariant
            from <= i <= n,
            n == text@.len(),
            all_digits(text@.subrange(from as int, i as int)),
            whole == capped(digits_value(text@.subrange(from as int, i as int))),
        decreases n - i,
    {
        let d = (text[i] - DIGIT_ZERO) as u64;
        proof {
            let next = text@.subrange(from as int, i + 1);
            assert(next.drop_last() =~= text@.subrange(from as int, i as int));
            assert(next.last() == text@[i as int]);
            assert forall|j: int| 0 <= j < next.len() implies is_digit(#[trigger] next[j]) by {
                if j < next.len() - 1 {
                    assert(next[j] == text@.subrange(from as int, i as int)[j]);
                }
            }
        }
        whole = if whole >= WHOLE_CAP || whole * 10 + d >= WHOLE_CAP {
            WHOLE_CAP
        } else {
            whole * 10 + d
        };
        i = i + 1;
    }
    (i, whole)
}

/// Whether every byte from `from` on is a digit.
fn digits_to_end(text: &[u8], from: usize) -> (r: bool)
    requires
        from <= text@.len(),
    ensures
        r == all_digits(text@.subrange(from as int, text@.len() as int)),
{
    let n = text.len();
    let mut j: usize = from;
    while j < n
        invariant
            from <= j <= n,
            n == text@.len(),
            forall|k: int| from <= k < j ==> is_digit(#[trigger] text@[k]),
        decreases n - j,
    {
        if !is_digit_byte(text[j]) {
            assert(text@.subrange(from as int, n as int)[j - from] == text@[j as int]);
            return false;
        }
        j = j + 1;
    }
    assert forall|k: int| 0 <= k < n - from implies is_digit(
        #[trigger] text@.subrange(from as int, n as int)[k],
    ) by {
        assert(text@.subrange(from as int, n as int)[k] == text@[from + k]);
    }
    true
}

/// The digit at place `k` of the digits that start at `from`.
fn place(text: &[u8], from: usize, k: usize) -> (d: i128)
    requires
        from <= text@.len(),
        k <= 4,
        all_digits(text@.subrange(from as int, text@.len() as int)),
    ensures
        d == digit_at(text@.subrange(from as int, text@.len() as int), k as int),
        0 <= d <= 9,
{
    if k < text.len() - from {
        assert(text@.subrange(from as int, text@.len() as int)[k as int] == text@[from + k]);
        (text[from + k] - DIGIT_ZERO) as i128
    } else {
        0
    }
}

/// Ten-thousandths that the digits from `from` on stand for.
fn fraction(text: &[u8], from: usize) -> (units: i128)
    requires
        from <= text@.len(),
        all_digits(text@.subrange(from as int, text@.len() as int)),
    ensures
        units == fraction_units(text@.subrange(from as int, text@.len() as int)),
        0 <= units <= 10_000,
{
    let round: i128 = if place(text, from, 4) >= 5 {
        1
    } else {
        0
    };
    place(text, from, 0) * 1000 + place(text, from, 1) * 100 + place(text, from, 2) * 10 + place(
        text,
        from,
        3,
    ) + round
}

/// Where digits run from `start` to `point`, and `point` is the end of the
/// text or holds a point, the digits are what stands before the point and
/// the rest is what stands after it.
proof fn lemma_parts(text: Seq<u8>, start: int, point: int)
    requires
        0 <= start <= point <= text.len(),
        unsigned_part(text) == text.subrange(start, text.len() as int),
        all_digits(text.subrange(start, point)),
        point < text.len() ==> text[point] == POINT,
    ensures
        whole_part(text) == text.subrange(start, point),
        point < text.len() ==> fraction_part(text) == text.subrange(point + 1, text.len() as int),
        point == text.len() ==> fraction_part(text) == Seq::<u8>::empty(),
{
    let body = unsigned_part(text);
    let p = point - start;
    assert forall|j: int| 0 <= j < p implies #[trigger] body[j] != POINT by {
        assert(is_digit(text.subrange(start, point)[j]));
    }
    assert(is_point_position(body, p));
    lemma_point_position(body, p);
    assert(body.take(p) =~= text.subrange(start, point));
    if point < text.len() {
        assert(body.skip(p + 1) =~= text.subrange(point + 1, text.len() as int));
    }
}

/// Where digits run from `start` to a byte that is neither a digit nor a
/// point, the text is no decimal number.
proof fn lemma_stray(text: Seq<u8>, start: int, at: int)
    requires
        0 <= start <= at < text.len(),
        unsigned_part(text) == text.subrange(start, text.len() as int),
        all_digits(text.subrange(start, at)),
        !is_digit(text[at]),
        text[at] != POINT,
    ensures
        !is_decimal(text),
{
    let body = unsigned_part(text);
    assert forall|j: int| 0 <= j < at - start implies is_digit(#[trigger] body[j]) by {
        assert(is_digit(text.subrange(start, at)[j]));
    }
    lemma_stray_byte(body, at - start);
}

/// Reads an amount from decimal text.
///
/// The amount is there exactly when the text is a decimal number whose
/// value in ten-thousandths, rounded half away from zero, fits in 64 bits.
pub fn parse_amount(text: &[u8]) -> (amount: Option<i64>)
    ensures
        amount == amount_of(text@),
{
    let n = text.len();
    let negative = n > 0 && text[0] == MINUS;
    let start: usize = if n > 0 && (text[0] == MINUS || text[0] == PLUS) {
        1
    } else {
        0
    };
    assert(unsigned_part(text@) =~= text@.subrange(start as int, n as int));
    let (point, whole) = scan_digits(text, start);
    if point < n && text[point] != POINT {
        proof {
            lemma_stray(text@, start as int, point as int);
        }
        return None;
    }
    proof {
        lemma_parts(text@, start as int, point as int);
    }
    let from: usize = if point < n {
        point + 1
    } else {
        n
    };
    assert(fraction_part(text@) =~= text@.subrange(from as int, n as int));
    if !digits_to_end(text, from) {
        return None;
    }
    if point - start == 0 && n - from == 0 {
        return None;
    }
    let units = fraction(text, from);
    if whole >= WHOLE_CAP {
        return None;
    }
    let magnitude: i128 = whole as i128 * 10_000 + units;
    let value: i128 = if negative {
        -magnitude
    } else {
        magnitude
    };
    if value < i64::MIN as i128 || value > i64::MAX as i128 {
        None
    } else {
        Some(value as i64)
    }
}

/// Appends the digits of `n` to `out`.
fn push_decimal(out: &mut Vec<u8>, n: u128)
    ensures
        final(out)@ == old(out)@ + decimal_digits(n as nat),
    decreases n,
{
    if n >= 10 {
        push_decimal(out, n / 10);
    }
    out.push(DIGIT_ZERO + (n % 10) as u8);
    assert(final(out)@ =~= old(out)@ + decimal_digits(n as nat));
}

/// Writes an amount as decimal text with exactly four decimal places.
pub fn format_amount(value: i128) -> (text: Vec<u8>)
    ensures
        text@ == rendered(value as int),
{
    let mut text: Vec<u8> = Vec::new();
    let magnitude: u128 = if value < 0 {
        text.push(MINUS);
        (-(value + 1)) as u128 + 1
    } else {
        value as u128
    };
    let ghost sign = text@;
    let units = magnitude % 10_000;
    push_decimal(&mut text, magnitude / 10_000);
    text.push(POINT);
    text.push(DIGIT_ZERO + (units / 1000 % 10) as u8);
    text.push(DIGIT_ZERO + (units % 1000 / 100) as u8);
    text.push(DIGIT_ZERO + (units % 100 / 10) as u8);
    text.push(DIGIT_ZERO + (units % 10) as u8);
    assert(text@ =~= sign + decimal_digits((magnitude / 10_000) as nat) + seq![POINT] + four_digits(
        units as nat,
    ));
    text
}

/// The digits of a number are digits, there is at least one, and they
/// write that number.
pub proof fn lemma_decimal_digits(n: nat)
    ensures
        decimal_digits(n).len() > 0,
        all_digits(decimal_digits(n)),
        digits_value(decimal_digits(n)) == n,
    decreases n,
{
    if n < 10 {
        let one = decimal_digits(n);
        assert(one.drop_last() =~= Seq::<u8>::empty());
        assert(digits_value(one.drop_last()) == 0);
    } else {
        lemma_decimal_digits(n / 10);
        let head = decimal_digits(n / 10);
        let all = decimal_digits(n);
        assert(all.drop_last() =~= head);
        assert forall|i: int| 0 <= i < all.len() implies is_digit(#[trigger] all[i]) by {
            if i < head.len() {
                assert(all[i] == head[i]);
            }
        }
    }
}

/// Four decimal places are digits and stand for the ten-thousandths that
/// they were taken from.
pub proof fn lemma_four_digits(units: nat)
    requires
        units < 10_000,
    ensures
        four_digits(units).len() == 4,
        all_digits(four_digits(units)),
        fraction_units(four_digits(units)) == units,
{
    let frac = four_digits(units);
    let thousands = units / 1000;
    let hundreds = units % 1000 / 100;
    let tens = units % 100 / 10;
    let ones = units % 10;
    assert(thousands * 1000 + hundreds * 100 + tens * 10 + ones == units) by {
        assert(units % 1000 % 100 == units % 100) by (nonlinear_arith);
        assert(units % 100 % 10 == units % 10) by (nonlinear_arith);
    }
    assert(thousands % 10 == thousands);
    assert(frac[0] == DIGIT_ZERO + thousands);
    assert(frac[1] == DIGIT_ZERO + hundreds);
    assert(frac[2] == DIGIT_ZERO + tens);
    assert(frac[3] == DIGIT_ZERO + ones);
    assert(digit_at(frac, 4) == 0);
}

/// Digits, a point and more text part at the point into those digits and
/// that text.
pub proof fn lemma_parts_around_point(whole: Seq<u8>, frac: Seq<u8>)
    requires
        all_digits(whole),
    ensures
        point_position(whole + seq![POINT] + frac) == whole.len(),
        (whole + seq![POINT] + frac).take(whole.len() as int) == whole,
        (whole + seq![POINT] + frac).skip(whole.len() as int + 1) == frac,
{
    let body = whole + seq![POINT] + frac;
    let p = whole.len() as int;
    assert forall|j: int| 0 <= j < p implies #[trigger] body[j] != POINT by {
        assert(body[j] == whole[j]);
    }
    assert(body[p] == POINT);
    lemma_point_position(body, p);
    assert(body.take(p) =~= whole);
    assert(body.skip(p + 1) =~= frac);
}

/// What was written reads back as the same amount: the text of `v` is a
/// decimal number, and its value is `v`.
pub proof fn rendered_reads_back(v: int)
    ensures
        is_decimal(rendered(v)),
        decimal_value(rendered(v)) == v,
{
    let magnitude = if v < 0 {
        -v
    } else {
        v
    };
    let whole = decimal_digits((magnitude / 10_000) as nat);
    let units = (magnitude % 10_000) as nat;
    let frac = four_digits(units);
    let text = rendered(v);
    let body = whole + seq![POINT] + frac;
    lemma_decimal_digits((magnitude / 10_000) as nat);
    lemma_four_digits(units);
    lemma_parts_around_point(whole, frac);
    assert(is_digit(whole[0]));
    assert(body[0] == whole[0]);
    if v < 0 {
        assert(text =~= seq![MINUS] + body);
        assert(text[0] == MINUS);
        assert(text.skip(1) =~= body);
    } else {
        assert(text =~= body);
    }
    assert(unsigned_part(text) == body);
    assert(whole_part(text) == whole);
    assert(fraction_part(text) == frac);
}

/// An amount that was written reads back as itself.
pub proof fn format_then_parse(amount: i64)
    ensures
        amount_of(rendered(amount as int)) == Some(amount),
{
    rendered_reads_back(amount as int);
}

} // verus!
