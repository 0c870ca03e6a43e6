//! Balances as exact fixed-point amounts.
//!
//! A balance arrives as decimal text (`"13.25"`, `"1.325e1"`). It is held
//! as a whole number of billionths of the provider's unit, so that
//! comparing and summing balances is exact. Digits past the ninth
//! fractional digit are dropped, but a balance that is more than nothing is
//! never held as 0, and one that is too large to hold is held as the
//! largest amount.

use vstd::prelude::*;
use crate::text::{chars_of, string_of};

verus! {

/// How many fractional digits an amount keeps.
pub const FRACTION_DIGITS: usize = 9;

/// How many billionths make one unit.
pub const UNIT: u64 = 1_000_000_000;

/// The characters `0` to `9`.
pub open spec fn is_digit(c: char) -> bool {
    '0' <= c && c <= '9'
}

/// The number that a digit stands for.
pub open spec fn digit_value(c: char) -> nat {
    (c as u32 - '0' as u32) as nat
}

/// Every character is a digit.
pub open spec fn all_digits(s: Seq<char>) -> bool {
    forall|i: int| 0 <= i < s.len() ==> is_digit(#[trigger] s[i])
}

/// The number that a run of decimal digits denotes; 0 for the empty run.
pub open spec fn digits_value(s: Seq<char>) -> nat
    decreases s.len(),
{
    if s.len() == 0 {
        0
    } else {
        digits_value(s.drop_last()) * 10 + digit_value(s.last())
    }
}

/// Ten to the power `n`.
pub open spec fn pow10(n: nat) -> nat
    decreases n,
{
    if n == 0 {
        1
    } else {
        10 * pow10((n - 1) as nat)
    }
}

/// The billionths that the digits after the decimal point denote: the first
/// nine digits count, and a shorter run is read as if zeros followed it.
spec fn fraction_value(s: Seq<char>) -> nat {
    if s.len() >= FRACTION_DIGITS {
        digits_value(s.take(FRACTION_DIGITS as int))
    } else {
        digits_value(s) * pow10((FRACTION_DIGITS - s.len()) as nat)
    }
}

/// The text without a leading plus sign.
pub open spec fn unsigned_part(s: Seq<char>) -> Seq<char> {
    if s.len() > 0 && s[0] == '+' {
        s.skip(1)
    } else {
        s
    }
}

/// `k` is where the first decimal point of `s` stands, or the length of `s`
/// if it has none.
pub open spec fn is_first_point(s: Seq<char>, k: int) -> bool {
    &&& 0 <= k <= s.len()
    &&& forall|t: int| 0 <= t < k ==> #[trigger] s[t] != '.'
    &&& k < s.len() ==> s[k] == '.'
}

/// Where the first decimal point of `s` stands, or the length of `s` if it
/// has none.
pub open spec fn first_point(s: Seq<char>) -> int {
    choose|k: int| is_first_point(s, k)
}

/// The digits before the decimal point.
pub open spec fn whole_part(s: Seq<char>) -> Seq<char> {
    s.take(first_point(s))
}

/// The digits after the decimal point; empty where there is no point.
pub open spec fn fraction_part(s: Seq<char>) -> Seq<char> {
    if first_point(s) < s.len() {
        s.skip(first_point(s) + 1)
    } else {
        Seq::empty()
    }
}

/// An unsigned decimal: digits, at most one point among them, and at least
/// one digit in all (`"7"`, `"7."`, `".5"`, `"7.50"`).
pub open spec fn is_decimal(s: Seq<char>) -> bool {
    &&& all_digits(whole_part(s))
    &&& all_digits(fraction_part(s))
    &&& whole_part(s).len() + fraction_part(s).len() > 0
}

/// The characters that start an exponent.
pub open spec fn is_mark(c: char) -> bool {
    c == 'e' || c == 'E'
}

/// `k` is where the exponent of `s` is marked, or the length of `s` if it
/// has none.
pub open spec fn is_first_mark(s: Seq<char>, k: int) -> bool {
    &&& 0 <= k <= s.len()
    &&& forall|t: int| 0 <= t < k ==> !is_mark(#[trigger] s[t])
    &&& k < s.len() ==> is_mark(s[k])
}

/// Where the exponent of `s` is marked, or the length of `s` if it has
/// none.
pub open spec fn first_mark(s: Seq<char>) -> int {
    choose|k: int| is_first_mark(s, k)
}

/// Whether the text has an exponent.
pub open spec fn has_exponent(s: Seq<char>) -> bool {
    first_mark(s) < s.len()
}

/// What stands before the exponent: the decimal.
pub open spec fn mantissa_part(s: Seq<char>) -> Seq<char> {
    s.take(first_mark(s))
}

/// What stands after the mark of the exponent.
pub open spec fn exponent_part(s: Seq<char>) -> Seq<char> {
    if has_exponent(s) {
        s.skip(first_mark(s) + 1)
    } else {
        Seq::empty()
    }
}

/// Whether an exponent starts with a sign.
pub open spec fn is_signed(x: Seq<char>) -> bool {
    x.len() > 0 && (x[0] == '+' || x[0] == '-')
}

/// The digits of an exponent.
pub open spec fn exponent_digits(x: Seq<char>) -> Seq<char> {
    if is_signed(x) {
        x.skip(1)
    } else {
        x
    }
}

/// An exponent: digits, at least one, with a sign in front or none.
pub open spec fn is_exponent(x: Seq<char>) -> bool {
    exponent_digits(x).len() > 0 && all_digits(exponent_digits(x))
}

/// The number that an exponent denotes.
pub open spec fn exponent_value(x: Seq<char>) -> int {
    if x.len() > 0 && x[0] == '-' {
        -(digits_value(exponent_digits(x)) as int)
    } else {
        digits_value(exponent_digits(x)) as int
    }
}

/// By how many places the exponent of a text moves its decimal point to
/// the right; 0 where it has none.
pub open spec fn shift_of(s: Seq<char>) -> int {
    if has_exponent(s) {
        exponent_value(exponent_part(s))
    } else {
        0
    }
}

/// A number as a balance may be written: a decimal, and after it an
/// exponent or none (`"7.5"`, `"75e-1"`, `".75E+1"`).
pub open spec fn is_number(s: Seq<char>) -> bool {
    &&& is_decimal(mantissa_part(s))
    &&& has_exponent(s) ==> is_exponent(exponent_part(s))
}

/// All the digits of a decimal, those before the point and those after.
pub open spec fn digits_of(s: Seq<char>) -> Seq<char> {
    whole_part(s) + fraction_part(s)
}

/// The number that the first `count` digits of a run denote, the run read
/// as if zeros followed it where it is shorter; 0 where `count` is not
/// above 0.
pub open spec fn leading_value(digits: Seq<char>, count: int) -> nat {
    if count <= 0 {
        0
    } else if count <= digits.len() {
        digits_value(digits.take(count))
    } else {
        digits_value(digits) * pow10((count - digits.len()) as nat)
    }
}

/// The billionths that a number denotes, rounded down: its digits up to
/// the ninth place after where the exponent puts the point.
pub open spec fn decimal_value(s: Seq<char>) -> nat {
    let decimal = mantissa_part(s);
    leading_value(digits_of(decimal), whole_part(decimal).len() + shift_of(s) + FRACTION_DIGITS)
}

/// Whether a number denotes more than nothing: one of its digits is not 0.
pub open spec fn is_positive(s: Seq<char>) -> bool {
    digits_value(digits_of(mantissa_part(s))) > 0
}

/// The billionths that a number is held as. That is what it denotes,
/// rounded down, but for two cases: what is more than nothing and less
/// than a billionth is held as one billionth, so that it stays more than
/// nothing; and what 64 bits cannot hold is held as the most that they
/// can.
pub open spec fn held_value(s: Seq<char>) -> nat {
    let value = decimal_value(s);
    if value > u64::MAX {
        u64::MAX as nat
    } else if value == 0 && is_positive(s) {
        1
    } else {
        value
    }
}

/// What a balance text amounts to: `Some` exactly for a number with an
/// optional plus sign in front. The amount is above 0 exactly where the
/// number denotes more than nothing.
///
/// Nothing else is an amount: not a text with a minus sign in front, not
/// `inf` or `nan`, not one with white space.
pub open spec fn parsed_amount(text: Seq<char>) -> Option<u64> {
    let body = unsigned_part(text);
    if is_number(body) {
        Some(held_value(body) as u64)
    } else {
        None
    }
}

/// The balance that a text stands for: its amount, and 0 for a text that is
/// no amount.
pub open spec fn balance_of(text: Seq<char>) -> u64 {
    match parsed_amount(text) {
        Some(v) => v,
        None => 0,
    }
}

proof fn lemma_first_point_unique(s: Seq<char>, k: int)
    requires
        is_first_point(s, k),
    ensures
        first_point(s) == k,
{
    let j = first_point(s);
    assert(is_first_point(s, j));
    if j < k {
        assert(s[j] != '.');
    } else if k < j {
        assert(s[k] != '.');
    }
}

/// Every text has a place where its first point stands, or where it ends
/// without one.
proof fn lemma_first_point_exists(s: Seq<char>, from: int)
    requires
        0 <= from <= s.len(),
        forall|t: int| 0 <= t < from ==> #[trigger] s[t] != '.',
    ensures
        is_first_point(s, first_point(s)),
    decreases s.len() - from,
{
    if from < s.len() && s[from] != '.' {
        lemma_first_point_exists(s, from + 1);
    } else {
        assert(is_first_point(s, from));
    }
}

proof fn lemma_digits_value_push(s: Seq<char>, c: char)
    ensures
        digits_value(s.push(c)) == digits_value(s) * 10 + digit_value(c),
{
    assert(s.push(c).drop_last() =~= s);
}

fn digit_of(c: char) -> (r: Option<u64>)
    ensures
        is_digit(c) ==> r == Some(digit_value(c) as u64),
        !is_digit(c) ==> r is None,
        r matches Some(d) ==> d < 10,
{
    if '0' <= c && c <= '9' {
        Some((c as u32 - '0' as u32) as u64)
    } else {
        None
    }
}

/// Reads the digits of `chars` from `from` on, up to the first character
/// that is no digit. Returns where it stopped and the number read, or
/// `None` in its place once the number has outgrown 64 bits.
fn read_digits(chars: &Vec<char>, from: usize) -> (r: (usize, Option<u64>))
    requires
        from <= chars.len(),
    ensures
        from <= r.0 <= chars.len(),
        all_digits(chars@.subrange(from as int, r.0 as int)),
        r.0 < chars.len() ==> !is_digit(chars@[r.0 as int]),
        r.1 matches Some(v) ==> v == digits_value(chars@.subrange(from as int, r.0 as int)),
        r.1 is None ==> digits_value(chars@.subrange(from as int, r.0 as int)) > u64::MAX,
{
    let mut i: usize = from;
    let mut value: Option<u64> = Some(0);
    while i < chars.len()
        invariant
            from <= i <= chars.len(),
            all_digits(chars@.subrange(from as int, i as int)),
            value matches Some(v) ==> v == digits_value(chars@.subrange(from as int, i as int)),
            value is None ==> digits_value(chars@.subrange(from as int, i as int)) > u64::MAX,
        decreases chars.len() - i,
    {
        let d = match digit_of(chars[i]) {
            Some(d) => d,
            None => {
                return (i, value);
            },
        };
        proof {
            let before = chars@.subrange(from as int, i as int);
            let after = chars@.subrange(from as int, i + 1);
            assert(after =~= before.push(chars@[i as int]));
            lemma_digits_value_push(before, chars@[i as int]);
            assert forall|t: int| 0 <= t < after.len() implies is_digit(#[trigger] after[t]) by {
                if t < before.len() {
                    assert(after[t] == before[t]);
                }
            }
        }
        value = match value {
            Some(v) => match v.checked_mul(10) {
                Some(w) => w.checked_add(d),
                None => None,
            },
            None => None,
        };
        i += 1;
    }
    (i, value)
}

proof fn lemma_first_mark_unique(s: Seq<char>, k: int)
    requires
        is_first_mark(s, k),
    ensures
        first_mark(s) == k,
{
    let j = first_mark(s);
    assert(is_first_mark(s, j));
    if j < k {
        assert(!is_mark(s[j]));
    } else if k < j {
        assert(!is_mark(s[k]));
    }
}

/// A run of digits is worth no less when another digit follows it.
proof fn lemma_leading_grows(digits: Seq<char>, i: int)
    requires
        0 <= i < digits.len(),
    ensures
        digits_value(digits.take(i + 1)) == digits_value(digits.take(i)) * 10 + digit_value(
            digits[i],
        ),
{
    assert(digits.take(i + 1) =~= digits.take(i).push(digits[i]));
    lemma_digits_value_push(digits.take(i), digits[i]);
}

/// A copy of the characters of `chars` from `from` up to `to`.
fn copy_range(chars: &Vec<char>, from: usize, to: usize) -> (r: Vec<char>)
    requires
        from <= to <= chars.len(),
    ensures
        r@ == chars@.subrange(from as int, to as int),
{
    let mut r: Vec<char> = Vec::new();
    let mut i: usize = from;
    while i < to
        invariant
            from <= i <= to <= chars.len(),
            r@ == chars@.subrange(from as int, i as int),
        decreases to - i,
    {
        r.push(chars[i]);
        assert(chars@.subrange(from as int, i + 1) =~= chars@.subrange(from as int, i as int).push(
            chars@[i as int],
        ));
        i += 1;
    }
    r
}

/// Reads a decimal: gives its digits, those before the point and those
/// after, and how many stand before the point; `None` for what is no
/// decimal.
fn read_decimal(decimal: &Vec<char>) -> (r: Option<(Vec<char>, usize)>)
    ensures
        r is Some <==> is_decimal(decimal@),
        r matches Some((digits, whole)) ==> {
            &&& digits@ == digits_of(decimal@)
            &&& whole == whole_part(decimal@).len()
            &&& all_digits(digits@)
        },
{
    let n = decimal.len();
    let ghost body = decimal@;
    let (stop, _) = read_digits(decimal, 0);
    proof {
        assert(body.subrange(0, stop as int) =~= body.take(stop as int));
        assert forall|t: int| 0 <= t < stop implies #[trigger] body[t] != '.' by {
            assert(is_digit(body.take(stop as int)[t]));
        }
    }
    if stop < n && decimal[stop] != '.' {
        proof {
            // Neither a digit nor the first point: the text is no decimal.
            let k = first_point(body);
            lemma_first_point_exists(body, 0);
            if k < stop {
                assert(body[k] != '.');
            } else if k > stop {
                assert(whole_part(body)[stop as int] == body[stop as int]);
            }
        }
        return None;
    }
    proof {
        lemma_first_point_unique(body, stop as int);
        assert(whole_part(body) =~= body.subrange(0, stop as int));
    }
    let first: usize = if stop < n { stop + 1 } else { n };
    let (end, _) = read_digits(decimal, first);
    proof {
        assert(fraction_part(body) =~= body.skip(first as int));
        assert(body.subrange(first as int, n as int) =~= body.skip(first as int));
    }
    if end < n {
        proof {
            assert(fraction_part(body)[end - first] == body[end as int]);
        }
        return None;
    }
    if stop == 0 && first == n {
        return None;
    }
    let mut digits = copy_range(decimal, 0, stop);
    let mut i: usize = first;
    while i < n
        invariant
            first <= i <= n,
            n == decimal.len(),
            digits@ == body.subrange(0, stop as int) + body.subrange(first as int, i as int),
            body == decimal@,
        decreases n - i,
    {
        digits.push(decimal[i]);
        assert(body.subrange(first as int, i + 1) =~= body.subrange(first as int, i as int).push(
            body[i as int],
        ));
        assert(digits@ =~= body.subrange(0, stop as int) + body.subrange(first as int, i + 1));
        i += 1;
    }
    proof {
        assert(digits@ =~= digits_of(body));
        assert forall|t: int| 0 <= t < digits@.len() implies is_digit(#[trigger] digits@[t]) by {
            if t < stop {
                assert(digits@[t] == whole_part(body)[t]);
            } else {
                assert(digits@[t] == fraction_part(body)[t - stop]);
            }
        }
    }
    Some((digits, stop))
}

/// The most that an exponent is read as. One that is larger moves the
/// point as far as this one does, for all that an amount can show.
pub const EXPONENT_CAP: u128 = 1_000_000_000_000_000_000_000_000_000_000;

/// Reads an exponent: gives whether it has a minus sign, and the number
/// after the sign, or `EXPONENT_CAP` in its place where the number is
/// larger; `None` for what is no exponent.
fn read_exponent(x: &Vec<char>) -> (r: Option<(bool, u128)>)
    ensures
        r is Some <==> is_exponent(x@),
        r matches Some((negative, size)) ==> {
            &&& negative == (x@.len() > 0 && x@[0] == '-')
            &&& size <= EXPONENT_CAP
            &&& size < EXPONENT_CAP ==> size == digits_value(exponent_digits(x@))
            &&& size == EXPONENT_CAP ==> digits_value(exponent_digits(x@)) >= EXPONENT_CAP
        },
{
    let n = x.len();
    let negative = n > 0 && x[0] == '-';
    let start: usize = if n > 0 && (x[0] == '+' || x[0] == '-') { 1 } else { 0 };
    let ghost digits = exponent_digits(x@);
    assert(digits =~= x@.skip(start as int));
    let mut size: u128 = 0;
    let mut i: usize = start;
    while i < n
        invariant
            start <= i <= n,
            n == x.len(),
            digits == x@.skip(start as int),
            digits == exponent_digits(x@),
            all_digits(digits.take(i - start)),
            size <= EXPONENT_CAP,
            size < EXPONENT_CAP ==> size == digits_value(digits.take(i - start)),
            size == EXPONENT_CAP ==> digits_value(digits.take(i - start)) >= EXPONENT_CAP,
        decreases n - i,
    {
        let d = match digit_of(x[i]) {
            Some(d) => d,
            None => {
                proof {
                    assert(digits[i - start] == x@[i as int]);
                    assert(!is_digit(digits[i - start]));
                }
                return None;
            },
        };
        proof {
            assert(digits[i - start] == x@[i as int]);
            lemma_leading_grows(digits, i - start);
            let after = digits.take(i - start + 1);
            assert forall|t: int| 0 <= t < after.len() implies is_digit(#[trigger] after[t]) by {
                if t < i - start {
                    assert(after[t] == digits.take(i - start)[t]);
                }
            }
        }
        let next = size * 10 + d as u128;
        size = if next > EXPONENT_CAP {
            EXPONENT_CAP
        } else {
            next
        };
        i += 1;
    }
    assert(digits.take(n - start) =~= digits);
    if start == n {
        return None;
    }
    Some((negative, size))
}

/// The number that the first `count` digits denote, the digits read as if
/// zeros followed them; `None` in its place where it has outgrown 64 bits.
fn read_leading(digits: &Vec<char>, count: i128) -> (r: Option<u64>)
    requires
        all_digits(digits@),
    ensures
        r matches Some(v) ==> v == leading_value(digits@, count as int),
        r is None ==> leading_value(digits@, count as int) > u64::MAX,
{
    if count <= 0 {
        return Some(0);
    }
    let n = digits.len();
    let take: usize = if count < n as i128 { count as usize } else { n };
    let mut value: Option<u64> = Some(0);
    let mut i: usize = 0;
    while i < take
        invariant
            i <= take <= n,
            n == digits.len(),
            all_digits(digits@),
            value matches Some(v) ==> v == digits_value(digits@.take(i as int)),
            value is None ==> digits_value(digits@.take(i as int)) > u64::MAX,
        decreases take - i,
    {
        proof {
            lemma_leading_grows(digits@, i as int);
            assert(is_digit(digits@[i as int]));
        }
        let d = (digits[i] as u32 - '0' as u32) as u64;
        value = match value {
            Some(v) => match v.checked_mul(10) {
                Some(w) => w.checked_add(d),
                None => None,
            },
            None => None,
        };
        i += 1;
    }
    if count <= n as i128 {
        return value;
    }
    proof {
        assert(digits@.take(n as int) =~= digits@);
    }
    let whole = match value {
        Some(v) => v,
        None => {
            proof {
                lemma_pow10_step((count - n) as nat);
                let v = digits_value(digits@) as int;
                let p = pow10((count - n) as nat) as int;
                assert(v * p >= v) by (nonlinear_arith)
                    requires
                        p >= 1,
                        v >= 0,
                ;
            }
            return None;
        },
    };
    if whole == 0 {
        proof {
            let p = pow10((count - n) as nat) as int;
            assert(0 * p == 0) by (nonlinear_arith);
        }
        return Some(0);
    }
    let extra: i128 = count - n as i128;
    let mut grown: Option<u64> = Some(whole);
    let mut k: i128 = 0;
    proof {
        let w = whole as int;
        assert(w * 1 == w) by (nonlinear_arith);
        assert(pow10(0) == 1);
    }
    while k < extra && k < 20
        invariant
            0 <= k <= extra,
            k <= 20,
            whole >= 1,
            grown matches Some(v) ==> v == whole * pow10(k as nat),
            grown is None ==> whole * pow10(k as nat) > u64::MAX,
        decreases 20 - k,
    {
        proof {
            lemma_pow10_step(k as nat);
            let w = whole as int;
            let p = pow10(k as nat) as int;
            assert(w * (10 * p) == (w * p) * 10) by (nonlinear_arith);
        }
        grown = match grown {
            Some(v) => v.checked_mul(10),
            None => None,
        };
        k += 1;
    }
    proof {
        let w = whole as int;
        let p = pow10(k as nat) as int;
        let q = pow10(extra as nat) as int;
        lemma_pow10_monotonic(k as nat, extra as nat);
        assert(w * q >= w * p) by (nonlinear_arith)
            requires
                w >= 1,
                q >= p,
        ;
        if k < extra {
            assert(pow10(20) == 100_000_000_000_000_000_000nat) by {
                reveal_with_fuel(pow10, 21);
            }
            assert(w * p >= p) by (nonlinear_arith)
                requires
                    w >= 1,
                    p >= 0,
            ;
        }
    }
    if k < extra {
        return None;
    }
    grown
}

/// Reads a balance text. A funded balance never reads as 0: see
/// `held_value`.
pub fn parse_amount(text: &str) -> (r: Option<u64>)
    ensures
        r == parsed_amount(text@),
{
    let chars = chars_of(text);
    let n = chars.len();
    let start: usize = if n > 0 && chars[0] == '+' { 1 } else { 0 };
    let ghost body = unsigned_part(text@);
    assert(body =~= chars@.skip(start as int));
    let mut mark: usize = start;
    while mark < n && chars[mark] != 'e' && chars[mark] != 'E'
        invariant
            start <= mark <= n,
            n == chars.len(),
            body == chars@.skip(start as int),
            forall|t: int| 0 <= t < mark - start ==> !is_mark(#[trigger] body[t]),
        decreases n - mark,
    {
        assert(body[mark - start] == chars@[mark as int]);
        mark += 1;
    }
    proof {
        if mark < n {
            assert(body[mark - start] == chars@[mark as int]);
        }
        lemma_first_mark_unique(body, mark - start);
    }
    let decimal = copy_range(&chars, start, mark);
    assert(decimal@ =~= mantissa_part(body));
    let (digits, whole) = match read_decimal(&decimal) {
        Some(read) => read,
        None => {
            return None;
        },
    };
    let mut count: i128 = whole as i128 + FRACTION_DIGITS as i128;
    if mark < n {
        let exponent = copy_range(&chars, mark + 1, n);
        assert(exponent@ =~= exponent_part(body));
        let (negative, size) = match read_exponent(&exponent) {
            Some(read) => read,
            None => {
                return None;
            },
        };
        if negative {
            count = count - size as i128;
        } else {
            count = count + size as i128;
        }
    }
    let ghost wanted = whole_part(decimal@).len() + shift_of(body) + FRACTION_DIGITS;
    let value = read_leading(&digits, count);
    let (_, all) = read_digits(&digits, 0);
    proof {
        assert(digits@.subrange(0, digits@.len() as int) =~= digits@);
        lemma_far_counts(digits@, count as int, wanted);
    }
    let more_than_nothing = match all {
        Some(0) => false,
        _ => true,
    };
    match value {
        Some(0) => if more_than_nothing {
            Some(1)
        } else {
            Some(0)
        },
        Some(held) => Some(held),
        None => Some(u64::MAX),
    }
}

/// Where the point is put further off than an amount can show, it does not
/// matter how far: the digits count for nothing if it lies before all of
/// them, and for more than 64 bits can hold, or nothing at all, if it lies
/// twenty places or more behind them.
proof fn lemma_far_counts(digits: Seq<char>, count: int, wanted: int)
    requires
        all_digits(digits),
        count == wanted || (count <= 0 && wanted <= count) || (count >= digits.len() + 20 && wanted
            >= count),
    ensures
        leading_value(digits, wanted) == leading_value(digits, count) || (leading_value(
            digits,
            wanted,
        ) > u64::MAX && leading_value(digits, count) > u64::MAX),
        digits_value(digits) == 0 ==> leading_value(digits, wanted) == leading_value(
            digits,
            count,
        ),
{
    if count != wanted && count > 0 {
        let v = digits_value(digits) as int;
        let p = pow10((count - digits.len()) as nat) as int;
        let q = pow10((wanted - digits.len()) as nat) as int;
        lemma_pow10_monotonic(20, (count - digits.len()) as nat);
        lemma_pow10_monotonic(20, (wanted - digits.len()) as nat);
        assert(pow10(20) == 100_000_000_000_000_000_000nat) by {
            reveal_with_fuel(pow10, 21);
        }
        if v == 0 {
            assert(v * p == 0 && v * q == 0) by (nonlinear_arith)
                requires
                    v == 0,
            ;
        } else {
            assert(v * p >= p && v * q >= q) by (nonlinear_arith)
                requires
                    v >= 1,
                    p >= 0,
                    q >= 0,
            ;
        }
    }
}

/// The character for a digit below ten.
pub open spec fn digit_char(d: nat) -> char {
    ('0' as u32 + d) as char
}

/// A number in decimal digits, without leading zeros.
pub open spec fn number_text(n: nat) -> Seq<char>
    decreases n,
{
    if n < 10 {
        seq![digit_char(n)]
    } else {
        number_text(n / 10).push(digit_char(n % 10))
    }
}

/// The last `width` decimal digits of a number, with zeros in front where
/// the number is shorter.
pub open spec fn padded_text(n: nat, width: nat) -> Seq<char>
    decreases width,
{
    if width == 0 {
        Seq::empty()
    } else {
        padded_text(n / 10, (width - 1) as nat).push(digit_char(n % 10))
    }
}

/// The digits without the zeros at their end.
pub open spec fn without_trailing_zeros(s: Seq<char>) -> Seq<char>
    decreases s.len(),
{
    if s.len() > 0 && s.last() == '0' {
        without_trailing_zeros(s.drop_last())
    } else {
        s
    }
}

/// An amount of billionths as decimal text: the whole units, and, unless
/// the rest is 0, a point and the fractional digits up to the last that is
/// not 0.
pub open spec fn amount_text(v: nat) -> Seq<char> {
    let whole = number_text(v / (UNIT as nat));
    let rest = v % (UNIT as nat);
    if rest == 0 {
        whole
    } else {
        whole + seq!['.'] + without_trailing_zeros(padded_text(rest, FRACTION_DIGITS as nat))
    }
}

fn char_of_digit(d: u128) -> (c: char)
    requires
        d < 10,
    ensures
        c == digit_char(d as nat),
{
    ((d as u8) + 48u8) as char
}

/// Appends a number in decimal digits.
pub fn push_number(out: &mut Vec<char>, n: u128)
    ensures
        final(out)@ == old(out)@ + number_text(n as nat),
    decreases n,
{
    if n >= 10 {
        push_number(out, n / 10);
    }
    out.push(char_of_digit(n % 10));
    proof {
        if n >= 10 {
            assert(final(out)@ =~= old(out)@ + number_text(n as nat));
        } else {
            assert(final(out)@ =~= old(out)@ + number_text(n as nat));
        }
    }
}

fn push_padded(out: &mut Vec<char>, n: u64, width: usize)
    ensures
        final(out)@ == old(out)@ + padded_text(n as nat, width as nat),
    decreases width,
{
    if width > 0 {
        push_padded(out, n / 10, width - 1);
        out.push(char_of_digit((n % 10) as u128));
    }
    assert(final(out)@ =~= old(out)@ + padded_text(n as nat, width as nat));
}

/// How many of the digits stand before the zeros at their end.
fn length_without_zeros(digits: &Vec<char>) -> (keep: usize)
    ensures
        keep <= digits.len(),
        without_trailing_zeros(digits@) == digits@.take(keep as int),
{
    let mut keep = digits.len();
    assert(digits@.take(keep as int) =~= digits@);
    while keep > 0 && digits[keep - 1] == '0'
        invariant
            keep <= digits.len(),
            without_trailing_zeros(digits@) == without_trailing_zeros(digits@.take(keep as int)),
        decreases keep,
    {
        assert(digits@.take(keep as int).drop_last() =~= digits@.take(keep - 1));
        keep -= 1;
    }
    keep
}

/// Appends the first `count` of the characters.
fn push_start(out: &mut Vec<char>, chars: &Vec<char>, count: usize)
    requires
        count <= chars.len(),
    ensures
        final(out)@ == old(out)@ + chars@.take(count as int),
{
    let mut i: usize = 0;
    assert(out@ =~= old(out)@ + chars@.take(0));
    while i < count
        invariant
            i <= count <= chars.len(),
            out@ == old(out)@ + chars@.take(i as int),
        decreases count - i,
    {
        out.push(chars[i]);
        assert(chars@.take(i + 1) =~= chars@.take(i as int).push(chars@[i as int]));
        assert(out@ =~= old(out)@ + chars@.take(i + 1));
        i += 1;
    }
}

/// Appends an amount of billionths as decimal text.
pub fn push_amount(out: &mut Vec<char>, v: u128)
    ensures
        final(out)@ == old(out)@ + amount_text(v as nat),
{
    let whole = v / (UNIT as u128);
    let rest = (v % (UNIT as u128)) as u64;
    push_number(out, whole);
    if rest != 0 {
        out.push('.');
        let mut digits: Vec<char> = Vec::new();
        push_padded(&mut digits, rest, FRACTION_DIGITS);
        assert(digits@ =~= padded_text(rest as nat, FRACTION_DIGITS as nat));
        let keep = length_without_zeros(&digits);
        push_start(out, &digits, keep);
    }
    assert(out@ =~= old(out)@ + amount_text(v as nat));
}

/// An amount of billionths as decimal text.
pub fn render_amount(v: u128) -> (r: String)
    ensures
        r@ == amount_text(v as nat),
{
    let mut out: Vec<char> = Vec::new();
    push_amount(&mut out, v);
    string_of(&out)
}

proof fn lemma_pow10_step(n: nat)
    ensures
        pow10(n + 1) == 10 * pow10(n),
        pow10(n) >= 1,
    decreases n,
{
    if n > 0 {
        lemma_pow10_step((n - 1) as nat);
    }
}

proof fn lemma_pow10_monotonic(a: nat, b: nat)
    requires
        a <= b,
    ensures
        pow10(a) <= pow10(b),
    decreases b - a,
{
    if a < b {
        lemma_pow10_monotonic(a + 1, b);
        lemma_pow10_step(a);
    }
}

proof fn lemma_digit_char(d: nat)
    requires
        d < 10,
    ensures
        is_digit(digit_char(d)),
        digit_value(digit_char(d)) == d,
        digit_char(d) != '.',
        digit_char(d) != '+',
        (digit_char(d) == '0') == (d == 0),
{
}

proof fn lemma_number_text(n: nat)
    ensures
        number_text(n).len() >= 1,
        all_digits(number_text(n)),
        digits_value(number_text(n)) == n,
    decreases n,
{
    lemma_digit_char(n % 10);
    if n < 10 {
        let text = number_text(n);
        assert(text.drop_last() =~= Seq::empty());
        assert(digits_value(text.drop_last()) == 0);
    } else {
        lemma_number_text(n / 10);
        lemma_digits_value_push(number_text(n / 10), digit_char(n % 10));
    }
}

proof fn lemma_padded_text(n: nat, width: nat)
    ensures
        padded_text(n, width).len() == width,
        all_digits(padded_text(n, width)),
        digits_value(padded_text(n, width)) == n % pow10(width),
    decreases width,
{
    if width > 0 {
        let fewer = (width - 1) as nat;
        lemma_digit_char(n % 10);
        lemma_padded_text(n / 10, fewer);
        lemma_digits_value_push(padded_text(n / 10, fewer), digit_char(n % 10));
        lemma_pow10_step(fewer);
        let p = pow10(fewer) as int;
        let m = n as int;
        vstd::arithmetic::div_mod::lemma_breakdown(m, 10, p);
        assert(((m / 10) % p) * 10 + m % 10 == m % (10 * p));
    }
}

/// Digits without the zeros at their end stand for the same fraction.
proof fn lemma_trailing_zeros(s: Seq<char>)
    requires
        all_digits(s),
        s.len() <= FRACTION_DIGITS,
    ensures
        all_digits(without_trailing_zeros(s)),
        without_trailing_zeros(s).len() <= s.len(),
        fraction_value(without_trailing_zeros(s)) == fraction_value(s),
        digits_value(s) > 0 ==> without_trailing_zeros(s).len() > 0,
    decreases s.len(),
{
    if s.len() > 0 && s.last() == '0' {
        let init = s.drop_last();
        assert forall|i: int| 0 <= i < init.len() implies is_digit(#[trigger] init[i]) by {
            assert(init[i] == s[i]);
        }
        lemma_trailing_zeros(init);
        let missing = (FRACTION_DIGITS - s.len()) as nat;
        lemma_pow10_step(missing);
        assert(init.take(init.len() as int) =~= init);
        assert(s.take(s.len() as int) =~= s);
        let v = digits_value(init) as int;
        let q = pow10(missing) as int;
        assert((v * 10 + 0) * q == v * (10 * q)) by (nonlinear_arith);
        assert(fraction_value(init) == fraction_value(s)) by {
            reveal_with_fuel(pow10, 2);
        }
    }
}

proof fn lemma_pow10_adds(a: nat, b: nat)
    ensures
        pow10(a + b) == pow10(a) * pow10(b),
    decreases b,
{
    if b == 0 {
        assert(pow10(a) * 1 == pow10(a)) by (nonlinear_arith);
    } else {
        lemma_pow10_adds(a, (b - 1) as nat);
        lemma_pow10_step((a + b - 1) as nat);
        lemma_pow10_step((b - 1) as nat);
        let x = pow10(a) as int;
        let y = pow10((b - 1) as nat) as int;
        assert(10 * (x * y) == x * (10 * y)) by (nonlinear_arith);
    }
}

/// The number that two runs of digits denote when one follows the other.
proof fn lemma_digits_concat(front: Seq<char>, back: Seq<char>)
    ensures
        digits_value(front + back) == digits_value(front) * pow10(back.len()) + digits_value(back),
    decreases back.len(),
{
    if back.len() == 0 {
        assert(front + back =~= front);
        assert(digits_value(front) * 1 == digits_value(front)) by (nonlinear_arith);
    } else {
        let init = back.drop_last();
        lemma_digits_concat(front, init);
        assert((front + back).drop_last() =~= front + init);
        lemma_pow10_step(init.len());
        let f = digits_value(front) as int;
        let p = pow10(init.len()) as int;
        let i = digits_value(init) as int;
        assert((f * p + i) * 10 == f * (10 * p) + i * 10) by (nonlinear_arith);
    }
}

/// With no exponent, the billionths of a decimal are those of its whole
/// part and those of its fraction.
proof fn lemma_leading_is_fraction(whole: Seq<char>, fraction: Seq<char>)
    requires
        fraction.len() <= FRACTION_DIGITS,
    ensures
        leading_value(whole + fraction, whole.len() + FRACTION_DIGITS) == digits_value(whole)
            * pow10(9) + fraction_value(fraction),
{
    let digits = whole + fraction;
    let missing = (FRACTION_DIGITS - fraction.len()) as nat;
    lemma_digits_concat(whole, fraction);
    lemma_pow10_adds(fraction.len(), missing);
    let w = digits_value(whole) as int;
    let f = digits_value(fraction) as int;
    let p = pow10(fraction.len()) as int;
    let q = pow10(missing) as int;
    if missing == 0 {
        assert(digits.take(digits.len() as int) =~= digits);
        assert(fraction.take(FRACTION_DIGITS as int) =~= fraction);
        assert(p * 1 == p) by (nonlinear_arith);
    } else {
        assert((w * p + f) * q == w * (p * q) + f * q) by (nonlinear_arith);
    }
}

/// A text of digits and points has no exponent.
proof fn lemma_plain_decimal(text: Seq<char>)
    requires
        forall|t: int| 0 <= t < text.len() ==> is_digit(#[trigger] text[t]) || text[t] == '.',
    ensures
        !has_exponent(text),
        mantissa_part(text) == text,
        shift_of(text) == 0,
{
    assert(is_first_mark(text, text.len() as int)) by {
        assert forall|t: int| 0 <= t < text.len() implies !is_mark(#[trigger] text[t]) by {
            assert(is_digit(text[t]) || text[t] == '.');
        }
    }
    lemma_first_mark_unique(text, text.len() as int);
    assert(text.take(text.len() as int) =~= text);
}

/// An amount written as text reads back as the same amount.
pub proof fn law_written_amount_reads_back(v: u64)
    ensures
        parsed_amount(amount_text(v as nat)) == Some(v),
{
    let unit = UNIT as nat;
    let whole = number_text(v as nat / unit);
    let rest = v as nat % unit;
    let text = amount_text(v as nat);
    lemma_number_text(v as nat / unit);
    assert(is_digit(whole[0]));
    assert(text[0] == whole[0]);
    assert(unsigned_part(text) == text);
    assert(pow10(9) == unit) by {
        reveal_with_fuel(pow10, 10);
    }
    if rest == 0 {
        assert forall|t: int| 0 <= t < text.len() implies is_digit(#[trigger] text[t]) by {
            assert(is_digit(whole[t]));
        }
        lemma_plain_decimal(text);
        assert(is_first_point(text, text.len() as int));
        lemma_first_point_unique(text, text.len() as int);
        assert(whole_part(text) =~= whole);
        assert(fraction_part(text) =~= Seq::<char>::empty());
        lemma_leading_is_fraction(whole, Seq::<char>::empty());
        assert(digits_value(Seq::<char>::empty()) == 0);
        assert(fraction_value(Seq::<char>::empty()) == 0) by (nonlinear_arith)
            requires
                fraction_value(Seq::<char>::empty()) == 0 * pow10(9),
        ;
        assert(digits_of(text) =~= whole);
    } else {
        let padded = padded_text(rest, FRACTION_DIGITS as nat);
        let digits = without_trailing_zeros(padded);
        lemma_padded_text(rest, FRACTION_DIGITS as nat);
        lemma_trailing_zeros(padded);
        assert(rest % pow10(9) == rest);
        assert(text =~= whole + seq!['.'] + digits);
        assert forall|t: int| 0 <= t < text.len() implies is_digit(#[trigger] text[t]) || text[t]
            == '.' by {
            if t < whole.len() {
                assert(is_digit(whole[t]));
            } else if t > whole.len() {
                assert(is_digit(digits[t - whole.len() - 1]));
            }
        }
        lemma_plain_decimal(text);
        assert(is_first_point(text, whole.len() as int)) by {
            assert forall|t: int| 0 <= t < whole.len() implies #[trigger] text[t] != '.' by {
                assert(is_digit(whole[t]));
                assert(text[t] == whole[t]);
            }
            assert(text[whole.len() as int] == '.');
        }
        lemma_first_point_unique(text, whole.len() as int);
        assert(whole_part(text) =~= whole);
        assert(fraction_part(text) =~= digits);
        assert(padded.take(FRACTION_DIGITS as int) =~= padded);
        assert(fraction_value(padded) == rest);
        lemma_leading_is_fraction(whole, digits);
    }
    assert(decimal_value(text) == (v as nat / unit) * unit + rest);
    assert((v as nat / unit) * unit + rest == v) by (nonlinear_arith)
        requires
            unit > 0,
            rest == v as nat % unit,
    ;
}

} // verus!
