//! The 32-bit numbers among the 64-bit ones.
//!
//! Every finite 32-bit number is a 64-bit number, and between two neighbours of the first
//! kind lie others of the second. So a text that reads as a widened number in 64 bits reads
//! as the number itself in 32.

use crate::big::ten;
use crate::big::ten_adds;
use crate::big::two;
use crate::big::two_adds;
use crate::big::two_grows;
use crate::decimal::decimal_of;
use crate::decimal::nearest_exists;
use crate::decimal::read_number;
use crate::decimal::scale_down;
use crate::decimal::scale_up;
use crate::decimal::without_sign;
use crate::float::edge;
use crate::float::exact_is_nearest;
use crate::float::finite;
use crate::float::from_int;
use crate::float::integer_units;
use crate::float::is_nearest;
use crate::float::nearest_named;
use crate::float::nearest_of;
use crate::float::shift;
use crate::float::significand;
use crate::float::size_of_int;
use crate::float::units;
use crate::float::units_step;
use crate::float::widened;
use crate::float::Format;
use vstd::prelude::*;

verus! {

/// The 64-bit pattern whose value is `amount` times two to the power of `power`.
proof fn exact_pattern(amount: nat, power: nat) -> (pattern: int)
    requires
        amount < 9007199254740992,
        power <= 2045,
    ensures
        0 <= pattern < Format::double().top,
        units(pattern, Format::double()) == amount * two(power),
        shift(pattern, Format::double()) <= power,
        amount < 4503599627370496 && power > 0 ==> shift(pattern, Format::double()) < power,
    decreases power,
{
    let double = Format::double();
    let hidden = 4503599627370496int;
    if amount >= hidden {
        let pattern = (power + 1) * hidden + (amount - hidden);
        vstd::arithmetic::div_mod::lemma_fundamental_div_mod_converse(
            pattern,
            hidden,
            power as int + 1,
            amount - hidden,
        );
        pattern
    } else if power == 0 {
        vstd::arithmetic::div_mod::lemma_small_mod(amount, hidden as nat);
        assert(amount * two(0) == amount) by (nonlinear_arith)
            requires
                two(0) == 1,
        ;
        amount as int
    } else {
        let half = two((power - 1) as nat);
        assert(amount * (2 * half) == (2 * amount) * half) by (nonlinear_arith);
        exact_pattern(2 * amount, (power - 1) as nat)
    }
}

/// The significand of a 32-bit pattern fits in 24 bits.
proof fn single_parts(pattern: int)
    requires
        0 <= pattern <= Format::single().top,
    ensures
        significand(pattern, Format::single()) < 16777216,
        shift(pattern, Format::single()) <= 254,
{
    let hidden = 8388608int;
    assert(0 <= pattern % hidden < hidden) by (nonlinear_arith)
        requires
            hidden == 8388608,
    ;
    assert(pattern / hidden <= 255) by (nonlinear_arith)
        requires
            hidden == 8388608,
            0 <= pattern <= 2139095040,
    ;
}

/// The 64-bit pattern with the value of a 32-bit one.
proof fn same_value(pattern: int) -> (wide: int)
    requires
        0 <= pattern <= Format::single().top,
    ensures
        0 <= wide < Format::double().top,
        units(wide, Format::double()) == units(pattern, Format::single()) * two(925),
        shift(wide, Format::double()) < shift(pattern, Format::single()) + 925,
{
    single_parts(pattern);
    let m = significand(pattern, Format::single());
    let s = shift(pattern, Format::single());
    let wide = exact_pattern(m, s + 925);
    two_adds(s, 925);
    let a = two(s);
    let b = two(925);
    assert(m * (a * b) == (m * a) * b) by (nonlinear_arith);
    wide
}

/// The 64-bit number with a 32-bit number's value is the widened one.
proof fn widened_is(pattern: u64, wide: int)
    requires
        pattern < Format::single().top,
        0 <= wide < Format::double().top,
        units(wide, Format::double()) == units(pattern as int, Format::single()) * two(925),
    ensures
        widened(pattern) == wide,
{
    exact_is_nearest(wide, 1, Format::double());
    let value = units(wide, Format::double());
    assert(value * 1 == value) by (nonlinear_arith);
    nearest_named(wide as u64, value, 1, Format::double());
}

/// A widened number is finite.
pub proof fn widened_is_finite(pattern: u64)
    requires
        pattern < Format::single().top,
    ensures
        finite(widened(pattern)),
        widened(pattern) < Format::double().top,
{
    let wide = same_value(pattern as int);
    widened_is(pattern, wide);
}

/// Zero widens to zero.
pub proof fn zero_widens()
    ensures
        widened(0) == 0,
{
    vstd::arithmetic::div_mod::lemma_small_mod(0, 8388608);
    vstd::arithmetic::div_mod::lemma_small_mod(0, 4503599627370496);
    let a = two(0);
    let b = two(925);
    assert(0 * a == 0) by (nonlinear_arith);
    assert(0 * b == 0) by (nonlinear_arith);
    widened_is(0, 0);
}

/// The values of the patterns are ordered as the patterns.
pub(crate) proof fn units_grow(low: int, high: int, format: Format)
    requires
        format.known(),
        0 <= low < high,
    ensures
        units(low, format) < units(high, format),
    decreases high - low,
{
    units_step(low, format);
    if low + 1 < high {
        units_grow(low + 1, high, format);
    }
}

/// The first pattern is that of zero.
pub(crate) proof fn zero_is_nothing()
    ensures
        units(0, Format::double()) == 0,
{
    vstd::arithmetic::div_mod::lemma_small_mod(0, 4503599627370496);
    let a = two(0);
    assert(0 * a == 0) by (nonlinear_arith);
}

/// Between the widened forms of two neighbours lies another number.
proof fn one_between(pattern: int, wide: int, next: int)
    requires
        0 <= pattern < Format::single().top,
        0 <= wide,
        0 <= next,
        units(wide, Format::double()) == units(pattern, Format::single()) * two(925),
        units(next, Format::double()) == units(pattern + 1, Format::single()) * two(925),
        shift(wide, Format::double()) < shift(pattern, Format::single()) + 925,
    ensures
        wide + 1 < next,
{
    let double = Format::double();
    let s = shift(pattern, Format::single());
    units_step(pattern, Format::single());
    units_step(wide, double);
    two_adds(s, 925);
    let u = units(pattern, Format::single());
    let a = two(s);
    let b = two(925);
    assert((u + a) * b == u * b + a * b) by (nonlinear_arith);
    assert(units(next, double) == units(wide, double) + two(s + 925));
    let w = shift(wide, double);
    two_grows(w, (s + 924) as nat);
    two_adds(s + 924, 0);
    assert(two((s + 925) as nat) == 2 * two((s + 924) as nat));
    assert(units(wide + 1, double) < units(next, double));
    if next <= wide + 1 {
        if next < wide + 1 {
            units_grow(next, wide + 1, double);
        }
    }
}

/// What is nearest to a widened number in 64 bits is nearest to the number in 32.
proof fn nearest_in_single(pattern: int, wide: int, amount: nat, divisor: nat)
    requires
        0 <= pattern < Format::single().top,
        0 <= wide < Format::double().top,
        units(wide, Format::double()) == units(pattern, Format::single()) * two(925),
        shift(wide, Format::double()) < shift(pattern, Format::single()) + 925,
        divisor > 0,
        is_nearest(wide, amount * two(925), divisor, Format::double()),
    ensures
        is_nearest(pattern, amount, divisor, Format::single()),
{
    let double = Format::double();
    let single = Format::single();
    let b = two(925);
    two_adds(925, 0);
    let next = same_value(pattern + 1);
    one_between(pattern, wide, next);
    units_grow(wide + 1, next, double);
    let u = units(pattern, single);
    let v = units(pattern + 1, single);
    let upper = units(wide + 1, double);
    assert(2 * amount < (u + v) * divisor) by (nonlinear_arith)
        requires
            b > 0,
            divisor > 0,
            upper < v * b,
            2 * (amount * b) <= (u * b + upper) * divisor,
    ;
    if pattern > 0 {
        let last = same_value(pattern - 1);
        one_between(pattern - 1, last, wide);
        units_grow(last, wide - 1, double);
        let t = units(pattern - 1, single);
        let lower = units(wide - 1, double);
        assert((t + u) * divisor < 2 * amount) by (nonlinear_arith)
            requires
                b > 0,
                divisor > 0,
                t * b < lower,
                (lower + u * b) * divisor <= 2 * (amount * b),
        ;
    }
}

proof fn two_to_the_127()
    ensures
        two(127) == 170141183460469231731687303715884105728,
{
    assert(two(8) == 256) by {
        reveal_with_fuel(two, 9);
    }
    two_adds(8, 8);
    assert(256int * 256 == 65536) by (nonlinear_arith);
    assert(two(16) == 65536);
    two_adds(16, 16);
    assert(65536int * 65536 == 4294967296) by (nonlinear_arith);
    assert(two(32) == 4294967296);
    two_adds(32, 32);
    assert(4294967296int * 4294967296 == 18446744073709551616) by (nonlinear_arith);
    assert(two(64) == 18446744073709551616);
    assert(two(64) == 2 * two(63));
    two_adds(64, 63);
    assert(18446744073709551616int * 9223372036854775808
        == 170141183460469231731687303715884105728) by (nonlinear_arith);
}

/// An integer of 128 bits is a finite number when it is read as one.
pub proof fn integers_are_finite(number: int)
    requires
        -170141183460469231731687303715884105728 < number
            < 170141183460469231731687303715884105728,
    ensures
        finite(from_int(number)),
{
    let double = Format::double();
    let size = size_of_int(integer_units(number));
    let pattern = nearest_of(size, 1, double);
    nearest_exists(size, 1, double);
    two_to_the_127();
    two_adds(127, 1074);
    two_grows(1201, 2045);
    let p = two(1074) as int;
    let n = number;
    let bound = two(127) as int;
    two_adds(1074, 0);
    assert(-bound * p < n * p < bound * p) by (nonlinear_arith)
        requires
            p > 0,
            -bound < n < bound,
    ;
    assert(size < two(2045)) by {
        assert(-bound * p == -(bound * p)) by (nonlinear_arith);
    }
    if pattern == double.top {
        let hidden = 4503599627370496int;
        let last = double.top - 1;
        vstd::arithmetic::div_mod::lemma_fundamental_div_mod_converse(last, hidden, 2046, hidden - 1);
        vstd::arithmetic::div_mod::lemma_fundamental_div_mod_converse(
            double.top as int,
            hidden,
            2047,
            0,
        );
        let a = two(2045) as int;
        let b = two(2046) as int;
        assert(two(2046) == 2 * two(2045));
        two_adds(2045, 0);
        assert((hidden + hidden - 1) * a >= a) by (nonlinear_arith)
            requires
                hidden == 4503599627370496,
                a > 0,
        ;
        assert(hidden * b >= b) by (nonlinear_arith)
            requires
                hidden == 4503599627370496,
                b >= 0,
        ;
        let sum = units(last, double) + units(double.top as int, double);
        assert(sum * 1 == sum) by (nonlinear_arith);
        assert(edge(last, 1, double) >= a + b);
    }
}

/// A text that reads as a widened number in 64 bits reads as the number in 32.
pub proof fn reads_as_single(text: Seq<char>, minus: bool, pattern: u64)
    requires
        pattern < Format::single().top,
        read_number(text, Format::double()) == Some((minus, widened(pattern))),
    ensures
        read_number(text, Format::single()) == Some((minus, pattern)),
{
    let body = without_sign(text);
    widened_is_finite(pattern);
    let (digits, exponent) = decimal_of(body)->0;
    assert(decimal_of(body) is Some);
    let large = scale_up(digits, exponent, Format::double());
    let small = scale_up(digits, exponent, Format::single());
    let divisor = scale_down(exponent);
    ten_adds(
        if exponent < 0 {
            (-exponent) as nat
        } else {
            0
        },
        0,
    );
    two_adds(149, 925);
    let n = digits * ten(
        if exponent > 0 {
            exponent as nat
        } else {
            0
        },
    );
    let a = two(149);
    let b = two(925);
    assert(n * (a * b) == (n * a) * b) by (nonlinear_arith);
    assert(large == small * b);
    nearest_exists(large, divisor, Format::double());
    let wide = same_value(pattern as int);
    widened_is(pattern, wide);
    assert(is_nearest(wide, large, divisor, Format::double()));
    nearest_in_single(pattern as int, wide, small, divisor);
    nearest_named(pattern, small, divisor, Format::single());
}

} // verus!
