//! Binary floating-point numbers, by their bits.
//!
//! A finite number is a sign and a magnitude pattern. The patterns of one format, read as
//! whole numbers, are ordered as the values they stand for, and a pattern stands for a
//! whole count of the smallest positive value. That makes every operation here a question
//! about whole numbers: the result is the pattern whose value is nearest to the exact one,
//! and of two that are equally near the even one.

use crate::big::two;
use crate::big::two_adds;
use crate::big::Big;
use crate::big::Relation;
use vstd::prelude::*;

verus! {

/// A binary format.
#[derive(Clone, Copy, Debug, PartialEq, Eq, Structural)]
pub struct Format {
    /// The number of patterns that share one exponent, a power of two.
    pub hidden: u64,
    /// The pattern of infinity, which is also the count of the finite patterns.
    pub top: u64,
    /// The smallest positive value is two to the power of minus this.
    pub scale: u32,
}

impl Format {
    /// The format with 64 bits.
    pub open spec fn double() -> Format {
        Format { hidden: 4503599627370496, top: 9218868437227405312, scale: 1074 }
    }

    /// The format with 32 bits.
    pub open spec fn single() -> Format {
        Format { hidden: 8388608, top: 2139095040, scale: 149 }
    }

    /// Whether this is one of the two formats.
    pub open spec fn known(self) -> bool {
        self == Format::double() || self == Format::single()
    }
}

/// The format with 64 bits.
pub fn double_format() -> (format: Format)
    ensures
        format == Format::double(),
{
    Format { hidden: 4503599627370496, top: 9218868437227405312, scale: 1074 }
}

/// The format with 32 bits.
pub fn single_format() -> (format: Format)
    ensures
        format == Format::single(),
{
    Format { hidden: 8388608, top: 2139095040, scale: 149 }
}

/// The whole number that a pattern scales.
pub open spec fn significand(pattern: int, format: Format) -> nat {
    let fraction = pattern % (format.hidden as int);
    if pattern < format.hidden {
        fraction as nat
    } else {
        (format.hidden + fraction) as nat
    }
}

/// The power of two by which a pattern scales its significand.
pub open spec fn shift(pattern: int, format: Format) -> nat {
    if pattern < format.hidden {
        0
    } else {
        (pattern / (format.hidden as int) - 1) as nat
    }
}

/// The value of a pattern, counted in the smallest positive value.
pub open spec fn units(pattern: int, format: Format) -> nat {
    significand(pattern, format) * two(shift(pattern, format))
}

/// Twice the midpoint between a pattern's value and that of the next, times `divisor`.
pub open spec fn edge(pattern: int, divisor: nat, format: Format) -> nat {
    (units(pattern, format) + units(pattern + 1, format)) * divisor
}

/// Whether `pattern` is the one nearest to `amount / divisor`, and the even one of two.
pub open spec fn is_nearest(pattern: int, amount: nat, divisor: nat, format: Format) -> bool {
    &&& 0 <= pattern <= format.top
    &&& pattern > 0 ==> edge(pattern - 1, divisor, format) < 2 * amount || (edge(
        pattern - 1,
        divisor,
        format,
    ) == 2 * amount && pattern % 2 == 0)
    &&& pattern < format.top ==> 2 * amount < edge(pattern, divisor, format) || (2 * amount == edge(
        pattern,
        divisor,
        format,
    ) && pattern % 2 == 0)
}

/// The pattern nearest to `amount / divisor`.
pub open spec fn nearest_of(amount: nat, divisor: nat, format: Format) -> u64 {
    choose|pattern: u64| is_nearest(pattern as int, amount, divisor, format)
}

/// The value of the next pattern is larger by one step.
pub proof fn units_step(pattern: int, format: Format)
    requires
        format.known(),
        0 <= pattern,
    ensures
        units(pattern + 1, format) == units(pattern, format) + two(shift(pattern, format)),
        two(shift(pattern, format)) > 0,
{
    let hidden = format.hidden as int;
    let s = shift(pattern, format);
    two_adds(s, 0);
    let next = pattern + 1;
    if next < hidden {
        vstd::arithmetic::div_mod::lemma_small_mod(pattern as nat, hidden as nat);
        vstd::arithmetic::div_mod::lemma_small_mod(next as nat, hidden as nat);
        assert(units(pattern, format) == pattern) by {
            assert(pattern * two(0) == pattern) by (nonlinear_arith)
                requires
                    two(0) == 1,
            ;
        }
        assert(next * two(0) == next) by (nonlinear_arith)
            requires
                two(0) == 1,
        ;
    } else if pattern < hidden {
        assert(next == hidden);
        vstd::arithmetic::div_mod::lemma_small_mod(pattern as nat, hidden as nat);
        vstd::arithmetic::div_mod::lemma_fundamental_div_mod_converse(next, hidden, 1, 0);
        assert((hidden - 1) * two(0) == hidden - 1) by (nonlinear_arith)
            requires
                two(0) == 1,
        ;
        assert(hidden * two(0) == hidden) by (nonlinear_arith)
            requires
                two(0) == 1,
        ;
    } else {
        let q = pattern / hidden;
        let r = pattern % hidden;
        assert(pattern == q * hidden + r && 0 <= r < hidden && q >= 1) by (nonlinear_arith)
            requires
                q == pattern / hidden,
                r == pattern % hidden,
                hidden > 0,
                pattern >= hidden,
        ;
        if r + 1 < hidden {
            assert(next / hidden == q && next % hidden == r + 1) by {
                vstd::arithmetic::div_mod::lemma_fundamental_div_mod_converse(
                    next,
                    hidden,
                    q,
                    r + 1,
                );
            }
            assert((hidden + r + 1) * two(s) == (hidden + r) * two(s) + two(s))
                by (nonlinear_arith);
        } else {
            assert(next == (q + 1) * hidden + 0) by (nonlinear_arith)
                requires
                    next == q * hidden + r + 1,
                    r + 1 == hidden,
            ;
            assert(next / hidden == q + 1 && next % hidden == 0) by {
                vstd::arithmetic::div_mod::lemma_fundamental_div_mod_converse(
                    next,
                    hidden,
                    q + 1,
                    0,
                );
            }
            assert(two((s + 1) as nat) == 2 * two(s));
            assert(hidden * (2 * two(s)) == (hidden + (hidden - 1)) * two(s) + two(s))
                by (nonlinear_arith);
        }
    }
}

/// The midpoints are ordered as their patterns.
pub proof fn edges_grow(low: int, high: int, divisor: nat, format: Format)
    requires
        format.known(),
        0 <= low < high,
        divisor > 0,
    ensures
        edge(low, divisor, format) < edge(high, divisor, format),
    decreases high - low,
{
    units_step(low, format);
    units_step(low + 1, format);
    let a = units(low, format) + units(low + 1, format);
    let b = units(low + 1, format) + units(low + 2, format);
    assert(a < b);
    assert(a * divisor < b * divisor) by (nonlinear_arith)
        requires
            a < b,
            divisor > 0,
    ;
    if low + 1 < high {
        edges_grow(low + 1, high, divisor, format);
    }
}

/// At most one pattern is nearest.
pub proof fn nearest_is_one(left: int, right: int, amount: nat, divisor: nat, format: Format)
    requires
        format.known(),
        divisor > 0,
        is_nearest(left, amount, divisor, format),
        is_nearest(right, amount, divisor, format),
    ensures
        left == right,
{
    if left < right - 1 {
        edges_grow(left, right - 1, divisor, format);
    } else if right < left - 1 {
        edges_grow(right, left - 1, divisor, format);
    }
}

/// The nearest pattern, once one is known, is the one that [`nearest_of`] names.
pub proof fn nearest_named(pattern: u64, amount: nat, divisor: nat, format: Format)
    requires
        format.known(),
        divisor > 0,
        is_nearest(pattern as int, amount, divisor, format),
    ensures
        nearest_of(amount, divisor, format) == pattern,
{
    let named = nearest_of(amount, divisor, format);
    assert(is_nearest(named as int, amount, divisor, format));
    nearest_is_one(named as int, pattern as int, amount, divisor, format);
}

/// A value that a pattern stands for exactly has that pattern as its nearest.
pub proof fn exact_is_nearest(pattern: int, divisor: nat, format: Format)
    requires
        format.known(),
        divisor > 0,
        0 <= pattern <= format.top,
    ensures
        is_nearest(pattern, units(pattern, format) * divisor, divisor, format),
{
    let value = units(pattern, format);
    units_step(pattern, format);
    assert(2 * (value * divisor) < (value + units(pattern + 1, format)) * divisor)
        by (nonlinear_arith)
        requires
            value < units(pattern + 1, format),
            divisor > 0,
    ;
    if pattern > 0 {
        units_step(pattern - 1, format);
        assert((units(pattern - 1, format) + value) * divisor < 2 * (value * divisor))
            by (nonlinear_arith)
            requires
                units(pattern - 1, format) < value,
                divisor > 0,
        ;
    }
}

/// The significand and the shift of a pattern.
fn parts(pattern: u64, format: Format) -> (parts: (u64, u32))
    requires
        format.known(),
        pattern <= format.top,
    ensures
        parts.0 == significand(pattern as int, format),
        parts.1 == shift(pattern as int, format),
        parts.0 < 2 * format.hidden,
        parts.1 < 2047,
{
    let fraction: u64 = pattern % format.hidden;
    let exponent: u64 = pattern / format.hidden;
    proof {
        let h = format.hidden as int;
        assert(exponent <= 2047) by (nonlinear_arith)
            requires
                exponent == pattern as int / h,
                h > 0,
                pattern <= 2047 * h,
        ;
    }
    if pattern < format.hidden {
        (fraction, 0)
    } else {
        proof {
            let h = format.hidden as int;
            assert(exponent >= 1) by (nonlinear_arith)
                requires
                    exponent == pattern as int / h,
                    h > 0,
                    pattern >= h,
            ;
        }
        (format.hidden + fraction, (exponent - 1) as u32)
    }
}

/// The value of a pattern.
pub fn units_of(pattern: u64, format: Format) -> (value: Big)
    requires
        format.known(),
        pattern <= format.top,
    ensures
        value@ == units(pattern as int, format),
{
    let (size, power) = parts(pattern, format);
    Big::from_u64(size).times_two(power)
}

/// How twice `amount` compares to the midpoint behind `pattern`.
pub(crate) fn against_edge(pattern: u64, doubled: &Big, divisor: &Big, format: Format) -> (relation: Relation)
    requires
        format.known(),
        pattern < format.top,
    ensures
        match relation {
            Relation::Below => doubled@ < edge(pattern as int, divisor@, format),
            Relation::Same => doubled@ == edge(pattern as int, divisor@, format),
            Relation::Above => doubled@ > edge(pattern as int, divisor@, format),
        },
{
    let (size, power) = parts(pattern, format);
    let middle = divisor.times(2 * size + 1).times_two(power);
    proof {
        units_step(pattern as int, format);
        let p = two(power as nat);
        let s = size as nat;
        let d = divisor@;
        assert((d * (2 * s + 1)) * p == (s * p + (s * p + p)) * d) by (nonlinear_arith);
    }
    doubled.relation(&middle)
}

/// The pattern nearest to `amount / divisor`.
pub fn nearest(amount: &Big, divisor: &Big, format: Format) -> (pattern: u64)
    requires
        format.known(),
        divisor@ > 0,
    ensures
        pattern == nearest_of(amount@, divisor@, format),
        is_nearest(pattern as int, amount@, divisor@, format),
{
    let doubled = amount.times(2);
    let mut low: u64 = 0;
    let mut high: u64 = format.top;
    while low < high
        invariant
            format.known(),
            divisor@ > 0,
            doubled@ == 2 * amount@,
            low <= high <= format.top,
            low > 0 ==> edge(low - 1, divisor@, format) < doubled@,
            high < format.top ==> doubled@ <= edge(high as int, divisor@, format),
        decreases high - low,
    {
        let middle: u64 = low + (high - low) / 2;
        match against_edge(middle, &doubled, divisor, format) {
            Relation::Above => {
                low = middle + 1;
            }
            _ => {
                high = middle;
            }
        }
    }
    let mut found: u64 = low;
    if low < format.top {
        match against_edge(low, &doubled, divisor, format) {
            Relation::Same => {
                if low % 2 == 1 {
                    found = low + 1;
                    proof {
                        if found < format.top {
                            edges_grow(low as int, found as int, divisor@, format);
                        }
                    }
                }
            }
            _ => {}
        }
    }
    proof {
        assert(is_nearest(found as int, amount@, divisor@, format));
        nearest_named(found, amount@, divisor@, format);
    }
    found
}

/// Whether `pattern` is the one nearest to `amount / divisor`.
pub(crate) fn check_nearest(pattern: u64, amount: &Big, divisor: &Big, format: Format) -> (answer: bool)
    requires
        format.known(),
        divisor@ > 0,
        pattern < format.top,
    ensures
        answer == is_nearest(pattern as int, amount@, divisor@, format),
{
    let doubled = amount.times(2);
    if pattern > 0 {
        match against_edge(pattern - 1, &doubled, divisor, format) {
            Relation::Below => {
                return false;
            }
            Relation::Same => {
                if pattern % 2 == 1 {
                    return false;
                }
            }
            Relation::Above => {}
        }
    }
    match against_edge(pattern, &doubled, divisor, format) {
        Relation::Below => true,
        Relation::Same => pattern % 2 == 0,
        Relation::Above => false,
    }
}

// -- Signed numbers ----------------------------------------------------------------

/// Whether the sign bit of a 64-bit number is set.
pub open spec fn negative(bits: u64) -> bool {
    bits >= 9223372036854775808
}

/// The magnitude pattern of a 64-bit number.
pub open spec fn magnitude(bits: u64) -> u64 {
    (bits % 9223372036854775808) as u64
}

/// The 64-bit number with this sign and magnitude.
pub open spec fn with_sign(minus: bool, pattern: u64) -> u64 {
    if minus {
        (pattern + 9223372036854775808) as u64
    } else {
        pattern
    }
}

/// Whether a 64-bit number is finite.
pub open spec fn finite(bits: u64) -> bool {
    magnitude(bits) < Format::double().top
}

/// The value of a 64-bit number, counted in the smallest positive value.
pub open spec fn signed_units(bits: u64) -> int {
    let size = units(magnitude(bits) as int, Format::double()) as int;
    if negative(bits) {
        -size
    } else {
        size
    }
}

/// The value of an integer, counted in the smallest positive 64-bit value.
pub open spec fn integer_units(number: int) -> int {
    number * two(1074)
}

/// The size of an integer.
pub open spec fn size_of_int(number: int) -> nat {
    if number < 0 {
        (-number) as nat
    } else {
        number as nat
    }
}

/// The 64-bit number nearest to a value that is counted in the smallest positive value.
pub open spec fn rounded(value: int) -> u64 {
    with_sign(value < 0, nearest_of(size_of_int(value), 1, Format::double()))
}

/// The sum of two 64-bit numbers. A sum of zero is negative only where both are.
pub open spec fn added(left: u64, right: u64) -> u64 {
    let sum = signed_units(left) + signed_units(right);
    if sum == 0 {
        with_sign(negative(left) && negative(right), 0)
    } else {
        rounded(sum)
    }
}

/// A 64-bit number divided by a count.
pub open spec fn divided(total: u64, count: u64) -> u64 {
    with_sign(
        negative(total),
        nearest_of(
            units(magnitude(total) as int, Format::double()),
            count as nat,
            Format::double(),
        ),
    )
}

/// The 64-bit number nearest to an integer.
pub open spec fn from_int(number: int) -> u64 {
    rounded(integer_units(number))
}

/// Whether a 64-bit number is finite.
pub fn is_finite(bits: u64) -> (answer: bool)
    ensures
        answer == finite(bits),
{
    bits % 9223372036854775808 < 9218868437227405312
}

/// The 64-bit number with this sign and magnitude.
pub fn join_sign(minus: bool, pattern: u64) -> (bits: u64)
    requires
        pattern < 9223372036854775808,
    ensures
        bits == with_sign(minus, pattern),
        negative(bits) == minus,
        magnitude(bits) == pattern,
{
    if minus {
        pattern + 9223372036854775808
    } else {
        pattern
    }
}

/// The sum of two finite 64-bit numbers, which may not be finite.
pub fn sum_bits(left: u64, right: u64) -> (sum: u64)
    requires
        finite(left),
        finite(right),
    ensures
        sum == added(left, right),
{
    let one = Big::from_u64(1);
    let format = double_format();
    let minus_left = left >= 9223372036854775808;
    let minus_right = right >= 9223372036854775808;
    let a = units_of(left % 9223372036854775808, format);
    let b = units_of(right % 9223372036854775808, format);
    if minus_left == minus_right {
        let total = a.plus(&b);
        match total.relation(&Big::from_u64(0)) {
            Relation::Above => join_sign(minus_left, nearest(&total, &one, format)),
            _ => join_sign(minus_left, 0),
        }
    } else {
        match a.relation(&b) {
            Relation::Same => 0,
            Relation::Above => join_sign(minus_left, nearest(&a.minus(&b), &one, format)),
            Relation::Below => join_sign(minus_right, nearest(&b.minus(&a), &one, format)),
        }
    }
}

/// A finite 64-bit number divided by a count.
pub fn divide_bits(total: u64, count: u64) -> (quotient: u64)
    requires
        finite(total),
        count > 0,
    ensures
        quotient == divided(total, count),
{
    let format = double_format();
    let size = units_of(total % 9223372036854775808, format);
    let pattern = nearest(&size, &Big::from_u64(count), format);
    join_sign(total >= 9223372036854775808, pattern)
}

/// The 64-bit number nearest to `number`.
pub fn integer_bits(number: i128) -> (bits: u64)
    requires
        number > i128::MIN,
    ensures
        bits == from_int(number as int),
{
    let size: u128 = if number < 0 {
        (-number) as u128
    } else {
        number as u128
    };
    let scaled = Big::from_u128(size).times_two(1074);
    let pattern = nearest(&scaled, &Big::from_u64(1), double_format());
    proof {
        two_adds(1074, 0);
        let p = two(1074) as int;
        let n = number as int;
        assert(n < 0 ==> n * p < 0 && (-n) * p == -(n * p)) by (nonlinear_arith)
            requires
                p > 0,
        ;
        assert(n >= 0 ==> n * p >= 0) by (nonlinear_arith)
            requires
                p > 0,
        ;
    }
    join_sign(number < 0, pattern)
}

/// How an integer compares to a finite 64-bit number, by value.
pub fn compare_integer_to_float(integer: i64, bits: u64) -> (relation: Relation)
    requires
        finite(bits),
    ensures
        match relation {
            Relation::Below => integer_units(integer as int) < signed_units(bits),
            Relation::Same => integer_units(integer as int) == signed_units(bits),
            Relation::Above => integer_units(integer as int) > signed_units(bits),
        },
{
    let size: u128 = if integer < 0 {
        (-(integer as i128)) as u128
    } else {
        integer as u128
    };
    let left = Big::from_u128(size).times_two(1074);
    let right = units_of(bits % 9223372036854775808, double_format());
    proof {
        two_adds(1074, 0);
        let p = two(1074) as int;
        let n = integer as int;
        assert(n < 0 ==> n * p < 0 && (-n) * p == -(n * p)) by (nonlinear_arith)
            requires
                p > 0,
        ;
        assert(n >= 0 ==> n * p >= 0) by (nonlinear_arith)
            requires
                p > 0,
        ;
    }
    let minus = bits >= 9223372036854775808;
    if integer < 0 {
        if minus {
            match left.relation(&right) {
                Relation::Below => Relation::Above,
                Relation::Same => Relation::Same,
                Relation::Above => Relation::Below,
            }
        } else {
            Relation::Below
        }
    } else if minus {
        match left.plus(&right).relation(&Big::from_u64(0)) {
            Relation::Above => Relation::Above,
            _ => Relation::Same,
        }
    } else {
        left.relation(&right)
    }
}

/// The 64-bit number with the value of a finite 32-bit magnitude, which is exact.
pub open spec fn widened(pattern: u64) -> u64 {
    nearest_of(units(pattern as int, Format::single()) * two(925), 1, Format::double())
}

/// The 64-bit number with the value of a finite 32-bit magnitude.
pub fn widen(pattern: u64) -> (bits: u64)
    requires
        pattern < 2139095040,
    ensures
        bits == widened(pattern),
{
    let value = units_of(pattern, single_format()).times_two(925);
    nearest(&value, &Big::from_u64(1), double_format())
}

} // verus!
