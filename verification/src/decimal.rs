//! Floating-point numbers in decimal text.
//!
//! Reading yields the number nearest to what is written. Writing yields the shortest
//! digits that read back as the number.

use crate::big::ten;
use crate::big::ten_above_two;
use crate::big::ten_adds;
use crate::big::ten_grows;
use crate::big::two;
use crate::big::two_adds;
use crate::big::two_grows;
use crate::big::Big;
use crate::big::Relation;
use crate::float::edge;
use crate::float::edges_grow;
use crate::float::exact_is_nearest;
use crate::float::is_nearest;
use crate::float::join_sign;
use crate::float::nearest;
use crate::float::nearest_named;
use crate::float::nearest_of;
use crate::float::units;
use crate::float::units_step;
use crate::float::with_sign;
use crate::float::Format;
use crate::number::is_digit;
use crate::number::value_of;
use crate::text::characters;
use vstd::prelude::*;

verus! {

// -- Reading -----------------------------------------------------------------------

/// Where the run of decimal digits that starts at `at` ends.
pub open spec fn digits_end(text: Seq<char>, at: int) -> int
    decreases text.len() - at,
{
    if at < text.len() && is_digit(text[at]) {
        digits_end(text, at + 1)
    } else {
        at
    }
}

/// Where the fraction digits end: behind the digits that follow a point at `at`.
pub open spec fn fraction_end(text: Seq<char>, at: int) -> int {
    if at < text.len() && text[at] == '.' {
        digits_end(text, at + 1)
    } else {
        at
    }
}

/// The fraction digits behind a point at `at`.
pub open spec fn fraction_digits(text: Seq<char>, at: int) -> Seq<char> {
    if at < text.len() && text[at] == '.' {
        text.subrange(at + 1, digits_end(text, at + 1))
    } else {
        Seq::empty()
    }
}

/// The exponent that stands at `at`: `e` or `E`, an optional sign, and digits to the end.
pub open spec fn exponent_at(text: Seq<char>, at: int) -> Option<int> {
    if at == text.len() {
        Some(0)
    } else if text[at] != 'e' && text[at] != 'E' {
        None
    } else {
        let signed = at + 1 < text.len() && (text[at + 1] == '-' || text[at + 1] == '+');
        let minus = at + 1 < text.len() && text[at + 1] == '-';
        let start = if signed {
            at + 2
        } else {
            at + 1
        };
        let size = value_of(text.subrange(start, text.len() as int)) as int;
        if start < text.len() && digits_end(text, start) == text.len() {
            Some(
                if minus {
                    -size
                } else {
                    size
                },
            )
        } else {
            None
        }
    }
}

/// The digits and the power of ten that `text` denotes: digits with an optional point, at
/// least one of them, and an optional exponent.
pub open spec fn decimal_of(text: Seq<char>) -> Option<(nat, int)> {
    let whole = digits_end(text, 0);
    let end = fraction_end(text, whole);
    let fraction = fraction_digits(text, whole);
    if whole + fraction.len() == 0 {
        None
    } else {
        match exponent_at(text, end) {
            None => None,
            Some(exponent) => Some(
                (value_of(text.take(whole) + fraction), exponent - fraction.len()),
            ),
        }
    }
}

/// `digits` times ten to the power of `exponent`, counted in the smallest positive value,
/// times [`scale_down`].
pub open spec fn scale_up(digits: nat, exponent: int, format: Format) -> nat {
    digits * ten(
        if exponent > 0 {
            exponent as nat
        } else {
            0
        },
    ) * two(format.scale as nat)
}

/// The divisor that belongs to [`scale_up`].
pub open spec fn scale_down(exponent: int) -> nat {
    ten(
        if exponent < 0 {
            (-exponent) as nat
        } else {
            0
        },
    )
}

/// The pattern nearest to `digits` times ten to the power of `exponent`.
pub open spec fn decimal_pattern(digits: nat, exponent: int, format: Format) -> u64 {
    nearest_of(scale_up(digits, exponent, format), scale_down(exponent), format)
}

/// The ASCII lower-case form of a character.
pub open spec fn lower(c: char) -> char {
    if 'A' <= c && c <= 'Z' {
        (c as int + 32) as char
    } else {
        c
    }
}

/// The ASCII lower-case form of a text.
pub open spec fn lowered(text: Seq<char>) -> Seq<char> {
    text.map_values(|c: char| lower(c))
}

/// The magnitude that an unsigned text denotes. Infinity is the pattern `top`, and a text
/// that names no number is one above it.
pub open spec fn unsigned_pattern(text: Seq<char>, format: Format) -> Option<u64> {
    if lowered(text) == "inf"@ || lowered(text) == "infinity"@ {
        Some(format.top)
    } else if lowered(text) == "nan"@ {
        Some((format.top + 1) as u64)
    } else {
        match decimal_of(text) {
            None => None,
            Some((digits, exponent)) => Some(decimal_pattern(digits, exponent, format)),
        }
    }
}

/// Whether a text starts with a minus sign.
pub open spec fn minus_sign(text: Seq<char>) -> bool {
    text.len() > 0 && text[0] == '-'
}

/// A text without its sign.
pub open spec fn without_sign(text: Seq<char>) -> Seq<char> {
    if text.len() > 0 && (text[0] == '-' || text[0] == '+') {
        text.skip(1)
    } else {
        text
    }
}

/// What reading `text` as a number yields: the sign and the magnitude.
pub open spec fn read_number(text: Seq<char>, format: Format) -> Option<(bool, u64)> {
    match unsigned_pattern(without_sign(text), format) {
        None => None,
        Some(pattern) => Some((minus_sign(text), pattern)),
    }
}

/// What reading `text` as a 64-bit number yields.
pub open spec fn read_double(text: Seq<char>) -> Option<u64> {
    match read_number(text, Format::double()) {
        None => None,
        Some((minus, pattern)) => Some(with_sign(minus, pattern)),
    }
}

proof fn digits_end_bounds(text: Seq<char>, at: int)
    requires
        0 <= at <= text.len(),
    ensures
        at <= digits_end(text, at) <= text.len(),
        forall|i: int| at <= i < digits_end(text, at) ==> is_digit(#[trigger] text[i]),
    decreases text.len() - at,
{
    if at < text.len() && is_digit(text[at]) {
        digits_end_bounds(text, at + 1);
    }
}

proof fn value_below_ten(digits: Seq<char>)
    requires
        forall|i: int| 0 <= i < digits.len() ==> is_digit(#[trigger] digits[i]),
    ensures
        value_of(digits) < ten(digits.len()),
    decreases digits.len(),
{
    if digits.len() > 0 {
        let shorter = digits.drop_last();
        assert forall|i: int| 0 <= i < shorter.len() implies is_digit(#[trigger] shorter[i]) by {
            assert(shorter[i] == digits[i]);
        }
        value_below_ten(shorter);
        assert(is_digit(digits[digits.len() - 1]));
        assert(ten(digits.len()) == 10 * ten((digits.len() - 1) as nat));
    }
}

pub(crate) proof fn huge_amount(digits: nat, exponent: int, format: Format)
    requires
        format.known(),
        digits > 0,
        exponent > 400,
    ensures
        edge(format.top - 1, 1, format) < 2 * scale_up(digits, exponent, format),
{
    let amount = scale_up(digits, exponent, format);
    ten_above_two(401);
    ten_grows(401, exponent as nat);
    two_grows(1100, 1203);
    let t = ten(exponent as nat);
    let s = two(format.scale as nat);
    assert(t >= two(1100));
    two_adds(1100, format.scale as nat);
    assert(digits * t * s >= two(1100) * s) by (nonlinear_arith)
        requires
            digits >= 1,
            t >= two(1100),
            s >= 0,
    ;
    let top = format.top as int;
    top_value(format);
    two_grows((1025 + format.scale) as nat, (1100 + format.scale) as nat);
    units_step(top - 1, format);
    let sum = units(top - 1, format) + units(top, format);
    assert(sum * 1 == sum) by (nonlinear_arith);
    assert(edge(top - 1, 1, format) == sum);
}

pub(crate) proof fn huge_is_infinite(digits: nat, exponent: int, format: Format)
    requires
        format.known(),
        digits > 0,
        exponent > 400,
    ensures
        is_nearest(
            format.top as int,
            scale_up(digits, exponent, format),
            scale_down(exponent),
            format,
        ),
{
    huge_amount(digits, exponent, format);
    assert(ten(0) == 1);
}

/// Infinity's place in the scale is two to the power of 1024 (or of 128), in units.
pub(crate) proof fn top_value(format: Format)
    requires
        format.known(),
    ensures
        units(format.top as int, format) <= two((1025 + format.scale) as nat),
{
    let hidden = format.hidden as int;
    let top = format.top as int;
    if format == Format::double() {
        assert(top / hidden == 2047 && top % hidden == 0);
        assert(hidden <= two(52)) by {
            powers();
        }
        two_adds(52, 2046);
        let p = two(2046);
        assert(hidden * p <= two(52) * p) by (nonlinear_arith)
            requires
                hidden <= two(52),
        ;
        two_grows(2098, 2099);
    } else {
        assert(top / hidden == 255 && top % hidden == 0);
        assert(hidden <= two(23)) by {
            powers();
        }
        two_adds(23, 254);
        let p = two(254);
        assert(hidden * p <= two(23) * p) by (nonlinear_arith)
            requires
                hidden <= two(23),
        ;
        two_grows(277, 1174);
    }
}

proof fn powers()
    ensures
        two(23) == 8388608,
        two(52) == 4503599627370496,
{
    assert(two(10) == 1024) by {
        reveal_with_fuel(two, 11);
    }
    two_adds(10, 10);
    assert(1024 * 1024 == 1048576nat);
    assert(two(3) == 8) by {
        reveal_with_fuel(two, 4);
    }
    two_adds(20, 3);
    assert(1048576 * 8 == 8388608nat);
    two_adds(20, 20);
    assert(1048576 * 1048576 == 1099511627776nat);
    two_adds(40, 10);
    assert(1099511627776 * 1024 == 1125899906842624nat);
    assert(two(2) == 4) by {
        reveal_with_fuel(two, 3);
    }
    two_adds(50, 2);
    assert(1125899906842624 * 4 == 4503599627370496nat);
}

proof fn tiny_is_zero(digits: nat, count: nat, exponent: int, format: Format)
    requires
        format.known(),
        digits < ten(count),
        exponent + count < -400,
    ensures
        is_nearest(0, scale_up(digits, exponent, format), scale_down(exponent), format),
{
    let d = ten((-exponent) as nat);
    let spare = (-exponent - count) as nat;
    ten_adds(count, spare);
    ten_grows(401, spare);
    ten_above_two(401);
    two_grows((format.scale + 1) as nat, 1203);
    let c = ten(count);
    let t = ten(spare);
    let s = two(format.scale as nat);
    assert(two((format.scale + 1) as nat) == 2 * s);
    assert(ten(0) == 1);
    assert(digits * 1 * s == digits * s) by (nonlinear_arith);
    two_adds(format.scale as nat, 0);
    assert(2 * (digits * s) == digits * (2 * s)) by (nonlinear_arith);
    assert(digits * (2 * s) <= digits * t) by (nonlinear_arith)
        requires
            2 * s <= t,
    ;
    assert(digits * t < c * t) by (nonlinear_arith)
        requires
            digits < c,
            t > 0,
    ;
    units_step(0, format);
    assert(two(0) == 1);
    assert(units(0, format) == 0) by {
        assert(0 * two(0) == 0) by (nonlinear_arith);
        vstd::arithmetic::div_mod::lemma_small_mod(0, format.hidden as nat);
    }
    assert(edge(0, d, format) == d) by {
        assert((0 + 1) * d == d) by (nonlinear_arith);
    }
}

/// Where the run of digits that starts at `at` ends.
fn find_digits_end(text: &Vec<char>, at: usize) -> (end: usize)
    requires
        at <= text@.len(),
    ensures
        end == digits_end(text@, at as int),
        at <= end <= text@.len(),
{
    let mut end: usize = at;
    while end < text.len() && text[end] >= '0' && text[end] <= '9'
        invariant
            at <= end <= text@.len(),
            digits_end(text@, at as int) == digits_end(text@, end as int),
        decreases text@.len() - end,
    {
        end = end + 1;
    }
    end
}

/// The number that the digits in `text[from..to]` continue, as a number of any size.
fn collect_digits(start: Big, text: &Vec<char>, from: usize, to: usize, before: Ghost<Seq<char>>) -> (
    number: Big)
    requires
        from <= to <= text@.len(),
        start@ == value_of(before@),
        forall|i: int| from <= i < to ==> is_digit(#[trigger] text@[i]),
    ensures
        number@ == value_of(before@ + text@.subrange(from as int, to as int)),
{
    let mut number = start;
    let mut at: usize = from;
    assert(before@ + text@.subrange(from as int, from as int) =~= before@);
    while at < to
        invariant
            from <= at <= to <= text@.len(),
            number@ == value_of(before@ + text@.subrange(from as int, at as int)),
            forall|i: int| from <= i < to ==> is_digit(#[trigger] text@[i]),
        decreases to - at,
    {
        let c: char = text[at];
        assert(is_digit(text@[at as int]));
        let digit: u64 = (c as u32 - 48) as u64;
        proof {
            let longer = before@ + text@.subrange(from as int, at + 1);
            assert(longer.drop_last() =~= before@ + text@.subrange(from as int, at as int));
            assert(longer.last() == c);
        }
        number = number.times(10).plus(&Big::from_u64(digit));
        at = at + 1;
    }
    number
}

/// The number that the digits in `text[from..to]` denote, as far as it is below `limit`.
fn bounded_digits(text: &Vec<char>, from: usize, to: usize, limit: u128) -> (number: u128)
    requires
        from <= to <= text@.len(),
        limit <= 1000000000000000000000000000000,
        forall|i: int| from <= i < to ==> is_digit(#[trigger] text@[i]),
    ensures
        ({
            let value = value_of(text@.subrange(from as int, to as int));
            number == (if value < limit {
                value
            } else {
                limit as nat
            })
        }),
{
    let mut number: u128 = 0;
    let mut at: usize = from;
    assert(text@.subrange(from as int, from as int) =~= Seq::<char>::empty());
    while at < to
        invariant
            from <= at <= to <= text@.len(),
            limit <= 1000000000000000000000000000000,
            ({
                let value = value_of(text@.subrange(from as int, at as int));
                number == (if value < limit {
                    value
                } else {
                    limit as nat
                })
            }),
            forall|i: int| from <= i < to ==> is_digit(#[trigger] text@[i]),
        decreases to - at,
    {
        let c: char = text[at];
        assert(is_digit(text@[at as int]));
        let digit: u128 = (c as u32 - 48) as u128;
        proof {
            let longer = text@.subrange(from as int, at + 1);
            assert(longer.drop_last() =~= text@.subrange(from as int, at as int));
            assert(longer.last() == c);
        }
        number = number * 10 + digit;
        if number > limit {
            number = limit;
        }
        at = at + 1;
    }
    number
}

/// An exponent that is known exactly or to be beyond every number that matters.
struct Exponent {
    minus: bool,
    size: u128,
}

const EXPONENT_LIMIT: u128 = 1000000000000000000000000000000;

/// Reads the exponent at `at`.
fn read_exponent(text: &Vec<char>, at: usize) -> (read: Option<Exponent>)
    requires
        at <= text@.len(),
    ensures
        match read {
            None => exponent_at(text@, at as int) is None,
            Some(exponent) => exponent_at(text@, at as int) matches Some(value) && ({
                &&& exponent.size <= 1000000000000000000000000000000
                &&& exponent.size < 1000000000000000000000000000000 ==> value == (if exponent.minus {
                    -(exponent.size as int)
                } else {
                    exponent.size as int
                })
                &&& exponent.size == 1000000000000000000000000000000 ==> (if exponent.minus {
                    value <= -1000000000000000000000000000000
                } else {
                    value >= 1000000000000000000000000000000
                })
            }),
        },
{
    if at == text.len() {
        return Some(Exponent { minus: false, size: 0 });
    }
    if text[at] != 'e' && text[at] != 'E' {
        return None;
    }
    let left: usize = text.len() - at;
    let minus = left > 1 && text[at + 1] == '-';
    let signed = left > 1 && (text[at + 1] == '-' || text[at + 1] == '+');
    let start: usize = if signed {
        at + 2
    } else {
        at + 1
    };
    let end = find_digits_end(text, start);
    if start == text.len() || end != text.len() {
        return None;
    }
    proof {
        digits_end_bounds(text@, start as int);
    }
    let size = bounded_digits(text, start, end, EXPONENT_LIMIT);
    Some(Exponent { minus, size })
}

/// The pattern nearest to `digits` times ten to the power of `exponent`.
fn scale_decimal(digits: &Big, exponent: i64, format: Format) -> (pattern: u64)
    requires
        format.known(),
        -4000000000 < exponent < 4000000000,
    ensures
        pattern == decimal_pattern(digits@, exponent as int, format),
{
    assert(ten(0) == 1);
    if exponent >= 0 {
        let amount = digits.times_ten(exponent as u32).times_two(format.scale);
        let one = Big::from_u64(1);
        nearest(&amount, &one, format)
    } else {
        let amount = digits.times_two(format.scale);
        let divisor = Big::from_u64(1).times_ten((-exponent) as u32);
        proof {
            ten_adds((-exponent) as nat, 0);
            let d = ten((-exponent) as nat);
            let n = digits@;
            let s = two(format.scale as nat);
            assert(1 * d == d) by (nonlinear_arith);
            assert(n * 1 * s == n * s) by (nonlinear_arith);
        }
        nearest(&amount, &divisor, format)
    }
}

/// The magnitude that a decimal text denotes.
fn read_decimal(text: &Vec<char>, format: Format) -> (read: Option<u64>)
    requires
        format.known(),
    ensures
        match decimal_of(text@) {
            None => read is None,
            Some((digits, exponent)) => read == Some(decimal_pattern(digits, exponent, format)),
        },
{
    let whole = find_digits_end(text, 0);
    let point = whole < text.len() && text[whole] == '.';
    let end = if point {
        find_digits_end(text, whole + 1)
    } else {
        whole
    };
    let count: usize = if point {
        end - whole - 1
    } else {
        0
    };
    let ghost fraction = fraction_digits(text@, whole as int);
    proof {
        digits_end_bounds(text@, 0);
        if point {
            digits_end_bounds(text@, whole + 1);
        }
        assert(fraction.len() == count);
    }
    if whole == 0 && count == 0 {
        return None;
    }
    let exponent = match read_exponent(text, end) {
        None => {
            return None;
        }
        Some(exponent) => exponent,
    };
    let ghost written = exponent_at(text@, end as int)->0;
    let ghost all = text@.take(whole as int) + fraction;
    let first = collect_digits(Big::from_u64(0), text, 0, whole, Ghost(Seq::empty()));
    assert(Seq::empty() + text@.subrange(0, whole as int) =~= text@.take(whole as int));
    let digits = if point {
        collect_digits(first, text, whole + 1, end, Ghost(text@.take(whole as int)))
    } else {
        first
    };
    assert(text@.take(whole as int) + Seq::empty() =~= text@.take(whole as int));
    assert(digits@ == value_of(all));
    let ghost power = written - count;
    let total: i128 = whole as i128 + count as i128;
    proof {
        assert forall|i: int| 0 <= i < all.len() implies is_digit(#[trigger] all[i]) by {
            if i < whole {
                assert(all[i] == text@[i]);
            } else {
                assert(all[i] == text@[whole + 1 + (i - whole)]);
            }
        }
        value_below_ten(all);
    }
    match digits.relation(&Big::from_u64(0)) {
        Relation::Above => {}
        _ => {
            proof {
                zero_is_nearest(power, format);
                ten_adds(
                    if power < 0 {
                        (-power) as nat
                    } else {
                        0
                    },
                    0,
                );
                nearest_named(0, scale_up(0, power, format), scale_down(power), format);
            }
            return Some(0);
        }
    }
    let reached: i128 = if exponent.minus {
        -(exponent.size as i128) - count as i128
    } else {
        exponent.size as i128 - count as i128
    };
    if reached > 400 {
        proof {
            huge_is_infinite(digits@, power, format);
            nearest_named(
                format.top,
                scale_up(digits@, power, format),
                scale_down(power),
                format,
            );
        }
        return Some(format.top);
    }
    if reached + total < -400 {
        proof {
            tiny_is_zero(digits@, all.len(), power, format);
            ten_adds((-power) as nat, 0);
            nearest_named(0, scale_up(digits@, power, format), scale_down(power), format);
        }
        return Some(0);
    }
    assert(power == reached);
    if reached <= -4000000000 {
        proof {
            ten_adds((-power) as nat, 0);
        }
        let amount = digits.times_two(format.scale);
        let divisor = ten_big((-reached) as u128);
        proof {
            let n = digits@;
            let s = two(format.scale as nat);
            assert(n * 1 * s == n * s) by (nonlinear_arith);
            assert(ten(0) == 1);
        }
        return Some(nearest(&amount, &divisor, format));
    }
    Some(scale_decimal(&digits, reached as i64, format))
}

/// Ten to the power of `exponent`.
fn ten_big(exponent: u128) -> (power: Big)
    ensures
        power@ == ten(exponent as nat),
{
    let mut power = Big::from_u64(1);
    let mut done: u128 = 0;
    while done < exponent
        invariant
            done <= exponent,
            power@ == ten(done as nat),
        decreases exponent - done,
    {
        assert(ten((done + 1) as nat) == 10 * ten(done as nat));
        power = power.times(10);
        done = done + 1;
    }
    power
}

pub(crate) proof fn zero_is_nearest(exponent: int, format: Format)
    requires
        format.known(),
    ensures
        is_nearest(0, scale_up(0, exponent, format), scale_down(exponent), format),
{
    let power = if exponent < 0 {
        (-exponent) as nat
    } else {
        0
    };
    let up = ten(
        if exponent > 0 {
            exponent as nat
        } else {
            0
        },
    );
    let s = two(format.scale as nat);
    ten_adds(power, 0);
    exact_is_nearest(0, ten(power), format);
    vstd::arithmetic::div_mod::lemma_small_mod(0, format.hidden as nat);
    let d = ten(power);
    assert(0 * up * s == 0) by (nonlinear_arith);
    assert(0 * two(0) == 0) by (nonlinear_arith);
    assert(0 * d == 0) by (nonlinear_arith);
}

/// Whether the lower-case form of `text` is `word`.
fn is_word(text: &Vec<char>, word: &str) -> (answer: bool)
    ensures
        answer == (lowered(text@) == word@),
{
    let wanted = characters(word);
    if text.len() != wanted.len() {
        return false;
    }
    let mut at: usize = 0;
    while at < text.len()
        invariant
            at <= text@.len(),
            text@.len() == wanted@.len(),
            wanted@ == word@,
            forall|i: int| 0 <= i < at ==> lower(#[trigger] text@[i]) == wanted@[i],
        decreases text@.len() - at,
    {
        if lower_char(text[at]) != wanted[at] {
            assert(lowered(text@)[at as int] != word@[at as int]);
            return false;
        }
        at = at + 1;
    }
    assert(lowered(text@) =~= word@);
    true
}

/// The ASCII lower-case form of `c`.
pub fn lower_char(c: char) -> (low: char)
    ensures
        low == lower(c),
{
    if c >= 'A' && c <= 'Z' {
        ((c as u32 + 32) as u8) as char
    } else {
        c
    }
}

/// Reads a floating-point number: its sign and its magnitude in `format`.
///
/// Accepted are an optional sign and then `inf`, `infinity`, `nan` in any case, or digits
/// with an optional point and an optional exponent.
pub fn parse_float(text: &str, format: Format) -> (read: Option<(bool, u64)>)
    requires
        format.known(),
    ensures
        read == read_number(text@, format),
{
    let all = characters(text);
    let mut body: Vec<char> = Vec::new();
    let signed = all.len() > 0 && (all[0] == '-' || all[0] == '+');
    let minus = all.len() > 0 && all[0] == '-';
    let from: usize = if signed {
        1
    } else {
        0
    };
    let mut at: usize = from;
    while at < all.len()
        invariant
            from <= at <= all@.len(),
            from <= all@.len(),
            body@ == all@.subrange(from as int, at as int),
        decreases all@.len() - at,
    {
        body.push(all[at]);
        at = at + 1;
        assert(body@ =~= all@.subrange(from as int, at as int));
    }
    assert(body@ =~= without_sign(text@));
    let pattern = if is_word(&body, "inf") || is_word(&body, "infinity") {
        Some(format.top)
    } else if is_word(&body, "nan") {
        Some(format.top + 1)
    } else {
        read_decimal(&body, format)
    };
    match pattern {
        None => None,
        Some(found) => Some((minus, found)),
    }
}

/// Reads a 64-bit number.
pub fn parse_double(text: &str) -> (read: Option<u64>)
    ensures
        read == read_double(text@),
{
    let format = crate::float::double_format();
    match parse_float(text, format) {
        None => None,
        Some((minus, pattern)) => {
            proof {
                pattern_bound(text@, format);
            }
            Some(join_sign(minus, pattern))
        }
    }
}

/// A number that is read has a pattern of its format.
pub(crate) proof fn pattern_bound(text: Seq<char>, format: Format)
    requires
        format.known(),
    ensures
        read_number(text, format) matches Some((_, pattern)) ==> pattern <= format.top + 1,
{
    let body = without_sign(text);
    if let Some((digits, exponent)) = decimal_of(body) {
        nearest_exists(scale_up(digits, exponent, format), scale_down(exponent), format);
    }
}

/// Some pattern is nearest.
pub(crate) proof fn nearest_exists(amount: nat, divisor: nat, format: Format)
    requires
        format.known(),
    ensures
        is_nearest(nearest_of(amount, divisor, format) as int, amount, divisor, format),
        nearest_of(amount, divisor, format) <= format.top,
{
    nearest_search(0, amount, divisor, format);
}

proof fn nearest_search(low: int, amount: nat, divisor: nat, format: Format)
    requires
        format.known(),
        0 <= low <= format.top,
        low > 0 ==> edge(low - 1, divisor, format) < 2 * amount,
    ensures
        exists|pattern: u64| is_nearest(pattern as int, amount, divisor, format),
    decreases format.top - low,
{
    if low == format.top || 2 * amount < edge(low, divisor, format) {
        assert(is_nearest(low as u64 as int, amount, divisor, format));
    } else if 2 * amount == edge(low, divisor, format) {
        if low % 2 == 0 {
            assert(is_nearest(low as u64 as int, amount, divisor, format));
        } else {
            let next = low + 1;
            if next < format.top {
                units_step(low, format);
                units_step(next, format);
                let a = units(low, format) + units(next, format);
                let b = units(next, format) + units(next + 1, format);
                if divisor > 0 {
                    edges_grow(low, next, divisor, format);
                } else {
                    assert(a * divisor == 0 && b * divisor == 0) by (nonlinear_arith)
                        requires
                            divisor == 0,
                    ;
                }
            }
            assert(is_nearest(next as u64 as int, amount, divisor, format));
        }
    } else {
        nearest_search(low + 1, amount, divisor, format);
    }
}

} // verus!
