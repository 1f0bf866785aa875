//! The shortest decimal digits of a floating-point number.
//!
//! A number is written with the coarsest power of ten of which some multiple reads back as
//! the number, and with the multiple that is closest to it.

use crate::big::ten;
use crate::big::ten_adds;
use crate::big::ten_grows;
use crate::big::two;
use crate::big::two_adds;
use crate::big::Big;
use crate::big::Relation;
use crate::decimal::decimal_of;
use crate::decimal::digits_end;
use crate::decimal::exponent_at;
use crate::decimal::fraction_digits;
use crate::decimal::huge_is_infinite;
use crate::decimal::lowered;
use crate::decimal::read_double;
use crate::decimal::scale_down;
use crate::decimal::scale_up;
use crate::decimal::unsigned_pattern;
use crate::decimal::without_sign;
use crate::decimal::zero_is_nearest;
use crate::float::against_edge;
use crate::float::check_nearest;
use crate::float::edge;
use crate::float::edges_grow;
use crate::float::exact_is_nearest;
use crate::float::finite;
use crate::float::is_nearest;
use crate::float::magnitude;
use crate::float::nearest_is_one;
use crate::float::nearest_named;
use crate::float::negative;
use crate::float::size_of_int;
use crate::float::units;
use crate::float::units_of;
use crate::float::units_step;
use crate::float::Format;
use crate::number::digits_of;
use crate::number::digits_read_back;
use crate::number::is_digit;
use crate::number::value_of;
use crate::number::shown;
use crate::number::show_signed;
use vstd::prelude::*;
use vstd::string::StringExecFns;

verus! {

/// Whether `digits` times ten to the power of `exponent` reads back as `pattern`.
pub open spec fn reads_back(digits: nat, exponent: int, pattern: int) -> bool {
    is_nearest(
        pattern,
        scale_up(digits, exponent, Format::double()),
        scale_down(exponent),
        Format::double(),
    )
}

/// Whether `exponent` is the largest power of ten of which a multiple reads back.
pub open spec fn coarsest(exponent: int, pattern: int) -> bool {
    &&& exists|digits: nat| #[trigger] reads_back(digits, exponent, pattern)
    &&& forall|digits: nat, other: int|
        other > exponent ==> !#[trigger] reads_back(digits, other, pattern)
}

/// The value of `pattern`, in the scale of [`scale_up`].
pub open spec fn scaled_value(exponent: int, pattern: int) -> nat {
    units(pattern, Format::double()) * scale_down(exponent)
}

/// Whether `digits` times ten to the power of `exponent` is the last multiple that is not
/// above the value of `pattern`.
pub open spec fn is_floor(digits: nat, exponent: int, pattern: int) -> bool {
    &&& scale_up(digits, exponent, Format::double()) <= scaled_value(exponent, pattern)
    &&& scaled_value(exponent, pattern) < scale_up(digits + 1, exponent, Format::double())
}

/// Of the two multiples around the value, the one that reads back. Where both do, the
/// closer one, and the larger of two that are equally close.
pub open spec fn closest(floor: nat, exponent: int, pattern: int) -> nat {
    if !reads_back(floor, exponent, pattern) {
        floor + 1
    } else if !reads_back(floor + 1, exponent, pattern) {
        floor
    } else if 2 * scaled_value(exponent, pattern) >= scale_up(floor, exponent, Format::double())
        + scale_up(floor + 1, exponent, Format::double()) {
        floor + 1
    } else {
        floor
    }
}

/// Whether `digits` times ten to the power of `exponent` is how `pattern` is written.
pub open spec fn is_shortest(digits: nat, exponent: int, pattern: int) -> bool {
    &&& coarsest(exponent, pattern)
    &&& exists|floor: nat| #[trigger]
        is_floor(floor, exponent, pattern) && digits == closest(floor, exponent, pattern)
}

/// `count` zeros.
pub open spec fn zeros(count: int) -> Seq<char> {
    Seq::new(
        if count > 0 {
            count as nat
        } else {
            0
        },
        |i: int| '0',
    )
}

/// How digits and a power of ten are laid out: with a point where the value is at least
/// 0.0001 and below 10000000000000000, and with an exponent elsewhere.
pub open spec fn layout(digits: Seq<char>, exponent: int) -> Seq<char> {
    let point = digits.len() + exponent;
    if point <= -4 || point > 16 {
        if digits.len() == 1 {
            digits + seq!['e'] + shown(point - 1)
        } else {
            seq![digits[0], '.'] + digits.skip(1) + seq!['e'] + shown(point - 1)
        }
    } else if point <= 0 {
        seq!['0', '.'] + zeros(-point) + digits
    } else if digits.len() <= point {
        digits + zeros(point - digits.len()) + seq!['.', '0']
    } else {
        digits.take(point) + seq!['.'] + digits.skip(point)
    }
}

/// How digits and a power of ten are laid out without an exponent, and without a point
/// behind a whole number.
pub open spec fn plain_layout(digits: Seq<char>, exponent: int) -> Seq<char> {
    let point = digits.len() + exponent;
    if point <= 0 {
        seq!['0', '.'] + zeros(-point) + digits
    } else if digits.len() <= point {
        digits + zeros(point - digits.len())
    } else {
        digits.take(point) + seq!['.'] + digits.skip(point)
    }
}

/// The digits and the power of ten with which a magnitude is written.
pub open spec fn shortest_of(pattern: int) -> (nat, int) {
    choose|parts: (nat, int)| #[trigger] is_shortest(parts.0, parts.1, pattern)
}

/// How a finite magnitude is written.
pub open spec fn shown_magnitude(pattern: int) -> Seq<char> {
    if pattern == 0 {
        seq!['0', '.', '0']
    } else {
        let parts = shortest_of(pattern);
        layout(digits_of(parts.0), parts.1)
    }
}

/// How a finite 64-bit number is written.
pub open spec fn shown_double(bits: u64) -> Seq<char> {
    if negative(bits) {
        seq!['-'] + shown_magnitude(magnitude(bits) as int)
    } else {
        shown_magnitude(magnitude(bits) as int)
    }
}

/// How a finite magnitude is written without an exponent.
pub open spec fn plain_magnitude(pattern: int) -> Seq<char> {
    if pattern == 0 {
        seq!['0']
    } else {
        let parts = shortest_of(pattern);
        plain_layout(digits_of(parts.0), parts.1)
    }
}

/// How a finite 64-bit number is written without an exponent.
pub open spec fn plain_double(bits: u64) -> Seq<char> {
    if negative(bits) {
        seq!['-'] + plain_magnitude(magnitude(bits) as int)
    } else {
        plain_magnitude(magnitude(bits) as int)
    }
}

// -- Facts -------------------------------------------------------------------------

/// Powers of ten above and below the point.
proof fn ten_between(low: int, high: int)
    requires
        low <= high,
    ensures
        ten(above(high)) * ten(below(low)) == ten(above(low)) * ten(below(high)) * ten(
            (high - low) as nat,
        ),
{
    let step = (high - low) as nat;
    if low >= 0 {
        ten_adds(low as nat, step);
        let a = ten(low as nat);
        let b = ten(step);
        assert((a * b) * 1 == a * 1 * b) by (nonlinear_arith);
        assert(ten(0) == 1);
    } else if high <= 0 {
        ten_adds((-high) as nat, step);
        assert(((-high) as nat) + step == (-low) as nat);
        let a = ten((-high) as nat);
        let b = ten(step);
        assert(1 * (a * b) == 1 * a * b) by (nonlinear_arith);
        assert(ten(0) == 1);
    } else {
        ten_adds(high as nat, (-low) as nat);
        assert(high as nat + (-low) as nat == step);
        let a = ten(high as nat);
        let b = ten((-low) as nat);
        let c = ten(step);
        assert(1 * 1 * c == c) by (nonlinear_arith);
        assert(ten(0) == 1);
    }
}

spec fn above(exponent: int) -> nat {
    if exponent > 0 {
        exponent as nat
    } else {
        0
    }
}

spec fn below(exponent: int) -> nat {
    if exponent < 0 {
        (-exponent) as nat
    } else {
        0
    }
}

proof fn scale_grows(low: nat, high: nat, exponent: int)
    requires
        low <= high,
    ensures
        scale_up(low, exponent, Format::double()) <= scale_up(high, exponent, Format::double()),
        low < high ==> scale_up(low, exponent, Format::double()) < scale_up(
            high,
            exponent,
            Format::double(),
        ),
        scale_down(exponent) > 0,
{
    let t = ten(above(exponent));
    let s = two(1074);
    ten_adds(above(exponent), 0);
    ten_adds(below(exponent), 0);
    two_adds(1074, 0);
    assert(low * t * s <= high * t * s) by (nonlinear_arith)
        requires
            low <= high,
    ;
    assert(low < high ==> low * t * s < high * t * s) by (nonlinear_arith)
        requires
            t > 0,
            s > 0,
    ;
}

/// What lies between a value that reads back and the number itself reads back too.
proof fn between_reads_back(pattern: int, far: nat, near: nat, divisor: nat)
    requires
        0 <= pattern < Format::double().top,
        divisor > 0,
        is_nearest(pattern, far, divisor, Format::double()),
        (far <= near && near <= units(pattern, Format::double()) * divisor) || (near <= far
            && units(pattern, Format::double()) * divisor <= near),
    ensures
        is_nearest(pattern, near, divisor, Format::double()),
{
    exact_is_nearest(pattern, divisor, Format::double());
}

proof fn some_neighbour_reads_back(digits: nat, floor: nat, exponent: int, pattern: int)
    requires
        0 <= pattern < Format::double().top,
        reads_back(digits, exponent, pattern),
        is_floor(floor, exponent, pattern),
    ensures
        reads_back(floor, exponent, pattern) || reads_back(floor + 1, exponent, pattern),
{
    scale_grows(0, 0, exponent);
    let far = scale_up(digits, exponent, Format::double());
    if digits <= floor {
        scale_grows(digits, floor, exponent);
        between_reads_back(
            pattern,
            far,
            scale_up(floor, exponent, Format::double()),
            scale_down(exponent),
        );
    } else {
        scale_grows(floor + 1, digits, exponent);
        between_reads_back(
            pattern,
            far,
            scale_up(floor + 1, exponent, Format::double()),
            scale_down(exponent),
        );
    }
}

/// Whether ten to the power of `exponent` is beyond everything that reads back.
spec fn beyond(exponent: int, pattern: int) -> bool {
    2 * scale_up(1, exponent, Format::double()) > edge(
        pattern,
        scale_down(exponent),
        Format::double(),
    )
}

proof fn beyond_is_final(exponent: int, other: int, digits: nat, pattern: int)
    requires
        0 < pattern < Format::double().top,
        beyond(exponent, pattern),
        other >= exponent,
    ensures
        !reads_back(digits, other, pattern),
{
    if digits == 0 {
        zero_is_nearest(other, Format::double());
        scale_grows(0, 0, other);
        if reads_back(0, other, pattern) {
            nearest_is_one(
                0,
                pattern,
                scale_up(0, other, Format::double()),
                scale_down(other),
                Format::double(),
            );
        }
    } else {
        scale_grows(1, digits, other);
        let s = two(1074);
        let sum = units(pattern, Format::double()) + units(pattern + 1, Format::double());
        let up = ten(above(exponent));
        let down = ten(below(exponent));
        let up2 = ten(above(other));
        let down2 = ten(below(other));
        let step = ten((other - exponent) as nat);
        ten_between(exponent, other);
        ten_adds((other - exponent) as nat, 0);
        ten_adds(below(exponent), 0);
        ten_adds(below(other), 0);
        assert(scale_up(1, exponent, Format::double()) == up * s) by {
            assert(1 * up * s == up * s) by (nonlinear_arith);
        }
        assert(scale_up(1, other, Format::double()) == up2 * s) by {
            assert(1 * up2 * s == up2 * s) by (nonlinear_arith);
        }
        assert(2 * (up * s) > sum * down);
        assert(up2 * down == up * down2 * step);
        cross(up, down, up2, down2, step, s, sum);
    }
}

/// A quotient that is exceeded stays exceeded where the power of ten grows.
proof fn cross(up: nat, down: nat, up2: nat, down2: nat, step: nat, s: nat, sum: nat)
    requires
        2 * (up * s) > sum * down,
        up2 * down == up * down2 * step,
        step >= 1,
        down > 0,
        down2 > 0,
    ensures
        2 * (up2 * s) > sum * down2,
{
    let lhs = 2 * (up2 * s);
    assert((2 * (up2 * s)) * down == 2 * ((up2 * down) * s)) by (nonlinear_arith);
    let k = up * down2;
    assert((k * step) * s >= k * s) by (nonlinear_arith)
        requires
            step >= 1,
    ;
    assert(2 * ((up * down2) * s) == (2 * (up * s)) * down2) by (nonlinear_arith);
    let x = 2 * (up * s);
    let y = sum * down;
    assert(x * down2 > y * down2) by (nonlinear_arith)
        requires
            x > y,
            down2 > 0,
    ;
    assert((sum * down) * down2 == (sum * down2) * down) by (nonlinear_arith);
    let rhs = sum * down2;
    assert(lhs > rhs) by (nonlinear_arith)
        requires
            lhs * down > rhs * down,
            down > 0,
    ;
}

proof fn beyond_at_last(pattern: int)
    requires
        0 <= pattern < Format::double().top,
    ensures
        beyond(401, pattern),
{
    let format = Format::double();
    let top = format.top as int;
    huge_is_infinite(1, 401, format);
    crate::decimal::huge_amount(1, 401, format);
    assert(ten(0) == 1);
    if pattern < top - 1 {
        edges_grow(pattern, top - 1, 1, format);
    }
}

proof fn beyond_has_no_floor(exponent: int, pattern: int)
    requires
        0 <= pattern < Format::double().top,
        beyond(exponent, pattern),
    ensures
        is_floor(0, exponent, pattern),
{
    let d = scale_down(exponent);
    scale_grows(0, 0, exponent);
    exact_is_nearest(pattern, d, Format::double());
    let t = ten(above(exponent));
    let s = two(1074);
    assert(0 * t * s == 0) by (nonlinear_arith);
}

/// One digit more: the floor in tenths lies between ten times the floor and that plus ten.
proof fn floor_in_tenths(floor: nat, exponent: int, pattern: int)
    requires
        0 <= pattern < Format::double().top,
        is_floor(floor, exponent + 1, pattern),
    ensures
        scale_up(10 * floor, exponent, Format::double()) <= scaled_value(exponent, pattern),
        scaled_value(exponent, pattern) < scale_up(10 * floor + 10, exponent, Format::double()),
{
    let s = two(1074);
    let value = units(pattern, Format::double());
    let next = exponent + 1;
    ten_between(exponent, next);
    assert(ten(1) == 10) by {
        assert(ten(1) == 10 * ten(0));
    }
    let up = ten(above(exponent));
    let down = ten(below(exponent));
    let up2 = ten(above(next));
    let down2 = ten(below(next));
    assert(up2 * down == up * down2 * 10);
    if exponent >= 0 {
        assert(down == 1 && down2 == 1);
        assert(up2 == 10 * up);
        assert(floor * (10 * up) * s == (10 * floor) * up * s) by (nonlinear_arith);
        assert((floor + 1) * (10 * up) * s == (10 * floor + 10) * up * s) by (nonlinear_arith);
    } else {
        assert(up == 1 && up2 == 1);
        assert(down == 10 * down2) by {
            assert(1 * down == 1 * down2 * 10);
        }
        assert((10 * floor) * 1 * s == 10 * (floor * 1 * s)) by (nonlinear_arith);
        assert((10 * floor + 10) * 1 * s == 10 * ((floor + 1) * 1 * s)) by (nonlinear_arith);
        assert(value * (10 * down2) == 10 * (value * down2)) by (nonlinear_arith);
    }
}

spec fn five(exponent: nat) -> nat
    decreases exponent,
{
    if exponent == 0 {
        1
    } else {
        5 * five((exponent - 1) as nat)
    }
}

proof fn ten_is_two_fives(exponent: nat)
    ensures
        ten(exponent) == two(exponent) * five(exponent),
    decreases exponent,
{
    if exponent > 0 {
        ten_is_two_fives((exponent - 1) as nat);
        let a = two((exponent - 1) as nat);
        let b = five((exponent - 1) as nat);
        assert(10 * (a * b) == (2 * a) * (5 * b)) by (nonlinear_arith);
        assert(two(exponent) == 2 * a && five(exponent) == 5 * b);
    } else {
        assert(two(exponent) * five(exponent) == 1) by (nonlinear_arith)
            requires
                two(exponent) == 1,
                five(exponent) == 1,
        ;
    }
}

/// At the finest power of ten the value is a multiple, and reads back.
proof fn finest_reads_back(floor: nat, pattern: int)
    requires
        0 <= pattern < Format::double().top,
        is_floor(floor, -1074, pattern),
    ensures
        reads_back(floor, -1074, pattern),
{
    let format = Format::double();
    let value = units(pattern, format);
    let exact = value * five(1074);
    let s = two(1074);
    let f = five(1074);
    ten_is_two_fives(1074);
    assert(ten(0) == 1);
    assert((value * f) * 1 * s == value * (s * f)) by (nonlinear_arith);
    assert(scale_up(exact, -1074, format) == scaled_value(-1074, pattern));
    scale_grows(0, 0, -1074);
    exact_is_nearest(pattern, scale_down(-1074), format);
    if floor < exact {
        scale_grows(floor + 1, exact, -1074);
    } else if floor > exact {
        scale_grows(exact, floor, -1074);
    }
}

/// The digits and the power of ten of a number are determined.
pub proof fn shortest_is_one(a: nat, p: int, b: nat, q: int, pattern: int)
    requires
        0 <= pattern < Format::double().top,
        is_shortest(a, p, pattern),
        is_shortest(b, q, pattern),
    ensures
        a == b,
        p == q,
{
    let one = choose|digits: nat| #[trigger] reads_back(digits, p, pattern);
    let two_ = choose|digits: nat| #[trigger] reads_back(digits, q, pattern);
    assert(reads_back(one, p, pattern));
    assert(reads_back(two_, q, pattern));
    assert(p == q);
    let f = choose|floor: nat| #[trigger]
        is_floor(floor, p, pattern) && a == closest(floor, p, pattern);
    let g = choose|floor: nat| #[trigger]
        is_floor(floor, q, pattern) && b == closest(floor, q, pattern);
    if f < g {
        scale_grows(f + 1, g, p);
    } else if g < f {
        scale_grows(g + 1, f, p);
    }
}

/// What is written reads back.
pub proof fn shortest_reads_back(digits: nat, exponent: int, pattern: int)
    requires
        0 <= pattern < Format::double().top,
        is_shortest(digits, exponent, pattern),
    ensures
        reads_back(digits, exponent, pattern),
{
    let floor = choose|floor: nat| #[trigger]
        is_floor(floor, exponent, pattern) && digits == closest(floor, exponent, pattern);
    let some = choose|digits: nat| #[trigger] reads_back(digits, exponent, pattern);
    some_neighbour_reads_back(some, floor, exponent, pattern);
}

proof fn digits_length(number: nat, count: nat)
    requires
        number < ten(count),
        count > 0,
    ensures
        digits_of(number).len() <= count,
    decreases count,
{
    if number >= 10 {
        assert(ten(count) == 10 * ten((count - 1) as nat));
        if count == 1 {
            assert(ten(0) == 1);
        } else {
            digits_length(number / 10, (count - 1) as nat);
        }
    }
}

proof fn two_below_ten(exponent: nat)
    ensures
        two(exponent) <= ten(exponent),
    decreases exponent,
{
    if exponent > 0 {
        two_below_ten((exponent - 1) as nat);
    }
}

/// The digits of a number that is written are few.
proof fn digits_are_few(digits: nat, exponent: int, pattern: int)
    requires
        0 < pattern < Format::double().top,
        is_shortest(digits, exponent, pattern),
        -1074 <= exponent <= 401,
    ensures
        digits_of(digits).len() <= 4000,
{
    let format = Format::double();
    let top = format.top as int;
    shortest_reads_back(digits, exponent, pattern);
    let d = scale_down(exponent);
    scale_grows(0, 0, exponent);
    if pattern < top - 1 {
        edges_grow(pattern, top - 1, d, format);
    }
    units_step(top - 1, format);
    crate::decimal::top_value(format);
    let sum = units(top - 1, format) + units(top, format);
    let cap = two(2099);
    assert(sum * d <= (2 * cap) * d) by (nonlinear_arith)
        requires
            sum <= 2 * cap,
    ;
    ten_grows(below(exponent), 1074);
    two_below_ten(2099);
    ten_adds(2099, 1074);
    let t = ten(above(exponent));
    ten_adds(above(exponent), 0);
    two_adds(1074, 0);
    let s = two(1074);
    assert(digits <= digits * t * s) by (nonlinear_arith)
        requires
            t >= 1,
            s >= 1,
    ;
    assert(cap * d <= ten(2099) * ten(1074)) by (nonlinear_arith)
        requires
            cap <= ten(2099),
            d <= ten(1074),
    ;
    assert((2 * cap) * d == 2 * (cap * d)) by (nonlinear_arith);
    assert(digits <= ten(3173));
    assert(ten(3174) == 10 * ten(3173));
    ten_adds(3173, 0);
    digits_length(digits, 3174);
}

// -- Writing -----------------------------------------------------------------------

/// `digits` times ten to the power of `exponent`, scaled.
fn scaled(digits: &Big, exponent: i32) -> (amount: Big)
    requires
        -2000 < exponent < 2000,
    ensures
        amount@ == scale_up(digits@, exponent as int, Format::double()),
{
    assert(ten(0) == 1);
    if exponent > 0 {
        digits.times_ten(exponent as u32).times_two(1074)
    } else {
        assert(digits@ * 1 == digits@) by (nonlinear_arith);
        digits.times_two(1074)
    }
}

/// The divisor that belongs to `exponent`.
fn divisor_of(exponent: i32) -> (divisor: Big)
    requires
        -2000 < exponent < 2000,
    ensures
        divisor@ == scale_down(exponent as int),
        divisor@ > 0,
{
    proof {
        ten_adds(below(exponent as int), 0);
    }
    if exponent < 0 {
        assert(1 * ten((-exponent) as nat) == ten((-exponent) as nat)) by (nonlinear_arith);
        Big::from_u64(1).times_ten((-exponent) as u32)
    } else {
        assert(ten(0) == 1);
        Big::from_u64(1)
    }
}

/// A power of ten that is beyond everything that reads back as `pattern`.
fn starting_point(pattern: u64) -> (exponent: i32)
    requires
        0 < pattern < 9218868437227405312,
    ensures
        -1074 < exponent <= 401,
        beyond(exponent as int, pattern as int),
{
    let power: i64 = (pattern / 4503599627370496) as i64;
    let guess: i64 = (power - 1022) * 30103 / 100000 + 2;
    let exponent: i32 = if guess > 401 {
        401
    } else if guess < -400 {
        -400
    } else {
        guess as i32
    };
    let doubled = scaled(&Big::from_u64(2), exponent);
    let divisor = divisor_of(exponent);
    proof {
        let t = ten(above(exponent as int));
        let s = two(1074);
        assert(2 * t * s == 2 * (1 * t * s)) by (nonlinear_arith);
        beyond_at_last(pattern as int);
    }
    match against_edge(pattern, &doubled, &divisor, crate::float::double_format()) {
        Relation::Above => exponent,
        _ => 401,
    }
}

/// The digits and the power of ten with which a magnitude is written.
fn shortest(pattern: u64) -> (parts: (Big, i32))
    requires
        0 < pattern < 9218868437227405312,
    ensures
        is_shortest(parts.0@, parts.1 as int, pattern as int),
        -1074 <= parts.1 <= 401,
{
    let format = crate::float::double_format();
    let value = units_of(pattern, format);
    let mut exponent: i32 = starting_point(pattern);
    let mut floor = Big::from_u64(0);
    proof {
        beyond_has_no_floor(exponent as int, pattern as int);
        let start = exponent as int;
        assert forall|digits: nat, other: int| other >= start implies !#[trigger] reads_back(
            digits,
            other,
            pattern as int,
        ) by {
            beyond_is_final(start, other, digits, pattern as int);
        }
    }
    loop
        invariant
            0 < pattern < 9218868437227405312,
            format == Format::double(),
            value@ == units(pattern as int, format),
            -1074 < exponent <= 401,
            is_floor(floor@, exponent as int, pattern as int),
            forall|digits: nat, other: int|
                other >= exponent ==> !#[trigger] reads_back(digits, other, pattern as int),
        decreases exponent + 1074,
    {
        let ghost old_exponent = exponent as int;
        let ghost old_floor = floor@;
        exponent = exponent - 1;
        let divisor = divisor_of(exponent);
        let target = {
            let mut product = value.copy();
            let power: u32 = if exponent < 0 {
                (-exponent) as u32
            } else {
                0
            };
            product = product.times_ten(power);
            product
        };
        proof {
            floor_in_tenths(old_floor, exponent as int, pattern as int);
        }
        assert(target@ == scaled_value(exponent as int, pattern as int));
        floor = floor.times(10);
        let mut digit: u8 = 0;
        while digit < 9
            invariant_except_break
                digit <= 9,
                floor@ == 10 * old_floor + digit,
            invariant
                -1074 <= exponent < 401,
                0 < pattern < 9218868437227405312,
                target@ == scaled_value(exponent as int, pattern as int),
                scaled_value(exponent as int, pattern as int) < scale_up(
                    10 * old_floor + 10,
                    exponent as int,
                    Format::double(),
                ),
                scale_up(floor@, exponent as int, Format::double()) <= scaled_value(
                    exponent as int,
                    pattern as int,
                ),
            ensures
                is_floor(floor@, exponent as int, pattern as int),
            decreases 9 - digit,
        {
            let more = floor.plus(&Big::from_u64(1));
            match scaled(&more, exponent).relation(&target) {
                Relation::Above => {
                    break;
                }
                _ => {
                    floor = more;
                    digit = digit + 1;
                }
            }
        }
        let more = floor.plus(&Big::from_u64(1));
        let low = scaled(&floor, exponent);
        let high = scaled(&more, exponent);
        let takes_low = check_nearest(pattern, &low, &divisor, format);
        let takes_high = check_nearest(pattern, &high, &divisor, format);
        if takes_low || takes_high {
            proof {
                assert(reads_back(floor@, exponent as int, pattern as int) || reads_back(
                    more@,
                    exponent as int,
                    pattern as int,
                ));
                assert(coarsest(exponent as int, pattern as int));
            }
            if !takes_low {
                return (more, exponent);
            }
            if !takes_high {
                return (floor, exponent);
            }
            return match target.times(2).relation(&low.plus(&high)) {
                Relation::Below => (floor, exponent),
                _ => (more, exponent),
            };
        }
        proof {
            if exponent == -1074 {
                finest_reads_back(floor@, pattern as int);
            }
            assert forall|digits: nat, other: int| other >= exponent implies !#[trigger] reads_back(
                digits,
                other,
                pattern as int,
            ) by {
                if other == exponent && reads_back(digits, other, pattern as int) {
                    some_neighbour_reads_back(digits, floor@, other, pattern as int);
                }
            }
        }
    }
}

/// Appends the decimal digits of a number of any size.
fn write_big(out: &mut Vec<char>, number: &Big)
    ensures
        final(out)@ == old(out)@ + digits_of(number@),
    decreases number@,
{
    match number.small() {
        Some(value) => {
            out.push((48u8 + value as u8) as char);
            assert(out@ =~= old(out)@ + digits_of(number@));
        }
        None => {
            let (front, last) = number.divide(10);
            proof {
                assert(number@ / 10 == front@ && number@ % 10 == last as nat);
            }
            write_big(out, &front);
            out.push((48u8 + last as u8) as char);
            assert(out@ =~= old(out)@ + digits_of(number@));
        }
    }
}

fn push_range(out: &mut String, digits: &Vec<char>, from: usize, to: usize)
    requires
        from <= to <= digits@.len(),
    ensures
        final(out)@ == old(out)@ + digits@.subrange(from as int, to as int),
{
    let mut at: usize = from;
    assert(out@ =~= old(out)@ + digits@.subrange(from as int, from as int));
    while at < to
        invariant
            from <= at <= to <= digits@.len(),
            out@ == old(out)@ + digits@.subrange(from as int, at as int),
        decreases to - at,
    {
        out.push(digits[at]);
        at = at + 1;
        assert(out@ =~= old(out)@ + digits@.subrange(from as int, at as int));
    }
}

fn push_zeros(out: &mut String, count: i64)
    ensures
        final(out)@ == old(out)@ + zeros(count as int),
{
    let mut done: i64 = 0;
    assert(out@ =~= old(out)@ + zeros(0));
    if count <= 0 {
        assert(zeros(count as int) =~= zeros(0));
        return;
    }
    while done < count
        invariant
            0 <= done <= count,
            out@ == old(out)@ + zeros(done as int),
        decreases count - done,
    {
        out.push('0');
        done = done + 1;
        assert(out@ =~= old(out)@ + zeros(done as int));
    }
}

/// Appends digits and a power of ten as they are laid out.
fn write_layout(out: &mut String, digits: &Vec<char>, exponent: i32)
    requires
        digits@.len() > 0,
        -1074 <= exponent <= 401,
        digits.len() < 1000000000,
    ensures
        final(out)@ == old(out)@ + layout(digits@, exponent as int),
{
    let count: i64 = digits.len() as i64;
    let point: i64 = count + exponent as i64;
    assert(digits@.subrange(0, digits@.len() as int) =~= digits@);
    assert(digits@.subrange(1, digits@.len() as int) =~= digits@.skip(1));
    if point <= -4 || point > 16 {
        if count == 1 {
            push_range(out, digits, 0, digits.len());
            out.push('e');
        } else {
            out.push(digits[0]);
            out.push('.');
            push_range(out, digits, 1, digits.len());
            out.push('e');
        }
        let power = show_signed(point - 1);
        out.append(power.as_str());
        assert(out@ =~= old(out)@ + layout(digits@, exponent as int));
    } else if point <= 0 {
        out.push('0');
        out.push('.');
        push_zeros(out, -point);
        push_range(out, digits, 0, digits.len());
        assert(out@ =~= old(out)@ + layout(digits@, exponent as int));
    } else if count <= point {
        push_range(out, digits, 0, digits.len());
        push_zeros(out, point - count);
        out.push('.');
        out.push('0');
        assert(out@ =~= old(out)@ + layout(digits@, exponent as int));
    } else {
        push_range(out, digits, 0, point as usize);
        out.push('.');
        push_range(out, digits, point as usize, digits.len());
        assert(digits@.subrange(0, point as int) =~= digits@.take(point as int));
        assert(digits@.subrange(point as int, digits@.len() as int) =~= digits@.skip(point as int));
        assert(out@ =~= old(out)@ + layout(digits@, exponent as int));
    }
}

/// How a finite 64-bit number is written: the shortest digits that read back as it.
pub fn show_double(bits: u64) -> (text: String)
    requires
        finite(bits),
    ensures
        text@ == shown_double(bits),
{
    let mut text = String::new();
    let pattern: u64 = bits % 9223372036854775808;
    if bits >= 9223372036854775808 {
        text.push('-');
    }
    if pattern == 0 {
        text.push('0');
        text.push('.');
        text.push('0');
    } else {
        let (number, exponent) = shortest(pattern);
        let mut digits: Vec<char> = Vec::new();
        write_big(&mut digits, &number);
        proof {
            let parts = shortest_of(pattern as int);
            let found = (number@, exponent as int);
            assert(is_shortest(found.0, found.1, pattern as int));
            assert(is_shortest(parts.0, parts.1, pattern as int));
            shortest_is_one(parts.0, parts.1, number@, exponent as int, pattern as int);
            crate::number::digits_read_back(number@);
            assert(digits@ =~= digits_of(number@));
            digits_are_few(number@, exponent as int, pattern as int);
        }
        write_layout(&mut text, &digits, exponent);
    }
    assert(text@ =~= shown_double(bits));
    text
}

/// Appends digits and a power of ten as they are laid out without an exponent.
fn write_plain(out: &mut String, digits: &Vec<char>, exponent: i32)
    requires
        digits@.len() > 0,
        -1074 <= exponent <= 401,
        digits.len() < 1000000000,
    ensures
        final(out)@ == old(out)@ + plain_layout(digits@, exponent as int),
{
    let count: i64 = digits.len() as i64;
    let point: i64 = count + exponent as i64;
    assert(digits@.subrange(0, digits@.len() as int) =~= digits@);
    if point <= 0 {
        out.push('0');
        out.push('.');
        push_zeros(out, -point);
        push_range(out, digits, 0, digits.len());
    } else if count <= point {
        push_range(out, digits, 0, digits.len());
        push_zeros(out, point - count);
    } else {
        push_range(out, digits, 0, point as usize);
        out.push('.');
        push_range(out, digits, point as usize, digits.len());
        assert(digits@.subrange(0, point as int) =~= digits@.take(point as int));
        assert(digits@.subrange(point as int, digits@.len() as int) =~= digits@.skip(point as int));
    }
    assert(out@ =~= old(out)@ + plain_layout(digits@, exponent as int));
}

/// How a finite 64-bit number is written without an exponent: the shortest digits that read
/// back as it.
pub fn show_plain(bits: u64) -> (text: String)
    requires
        finite(bits),
    ensures
        text@ == plain_double(bits),
{
    let mut text = String::new();
    let pattern: u64 = bits % 9223372036854775808;
    if bits >= 9223372036854775808 {
        text.push('-');
    }
    if pattern == 0 {
        text.push('0');
    } else {
        let (number, exponent) = shortest(pattern);
        let mut digits: Vec<char> = Vec::new();
        write_big(&mut digits, &number);
        proof {
            let parts = shortest_of(pattern as int);
            let found = (number@, exponent as int);
            assert(is_shortest(found.0, found.1, pattern as int));
            assert(is_shortest(parts.0, parts.1, pattern as int));
            shortest_is_one(parts.0, parts.1, number@, exponent as int, pattern as int);
            crate::number::digits_read_back(number@);
            assert(digits@ =~= digits_of(number@));
            digits_are_few(number@, exponent as int, pattern as int);
        }
        write_plain(&mut text, &digits, exponent);
    }
    assert(text@ =~= plain_double(bits));
    text
}

// -- Laws --------------------------------------------------------------------------

proof fn digits_end_is(text: Seq<char>, at: int, end: int)
    requires
        0 <= at <= end <= text.len(),
        forall|i: int| at <= i < end ==> is_digit(#[trigger] text[i]),
        end < text.len() ==> !is_digit(text[end]),
    ensures
        digits_end(text, at) == end,
    decreases end - at,
{
    if at < end {
        digits_end_is(text, at + 1, end);
    }
}

proof fn value_of_zeros_first(count: int, digits: Seq<char>)
    requires
        count >= 0,
    ensures
        value_of(zeros(count) + digits) == value_of(digits),
    decreases count + digits.len(),
{
    let all = zeros(count) + digits;
    if digits.len() > 0 {
        assert(all.drop_last() =~= zeros(count) + digits.drop_last());
        value_of_zeros_first(count, digits.drop_last());
    } else if count > 0 {
        assert(all.drop_last() =~= zeros(count - 1) + digits);
        assert(all.last() == '0');
        value_of_zeros_first(count - 1, digits);
    } else {
        assert(all =~= digits);
    }
}

proof fn value_of_zeros_last(digits: Seq<char>, count: int)
    requires
        count >= 0,
    ensures
        value_of(digits + zeros(count)) == value_of(digits) * ten(count as nat),
    decreases count,
{
    let all = digits + zeros(count);
    if count == 0 {
        assert(all =~= digits);
        assert(value_of(digits) * 1 == value_of(digits)) by (nonlinear_arith);
    } else {
        assert(all.drop_last() =~= digits + zeros(count - 1));
        assert(all.last() == '0');
        value_of_zeros_last(digits, count - 1);
        let v = value_of(digits);
        let t = ten((count - 1) as nat);
        assert((v * t) * 10 == v * (10 * t)) by (nonlinear_arith);
    }
}

/// Multiplying the amount and the divisor by the same number changes nothing.
proof fn nearest_scales(pattern: int, amount: nat, divisor: nat, factor: nat)
    requires
        factor > 0,
        0 <= pattern < Format::double().top,
        is_nearest(pattern, amount, divisor, Format::double()),
    ensures
        is_nearest(pattern, amount * factor, divisor * factor, Format::double()),
{
    let format = Format::double();
    if pattern > 0 {
        edge_scales(pattern - 1, amount, divisor, factor);
    }
    edge_scales(pattern, amount, divisor, factor);
}

proof fn edge_scales(pattern: int, amount: nat, divisor: nat, factor: nat)
    requires
        factor > 0,
    ensures
        edge(pattern, divisor, Format::double()) < 2 * amount ==> edge(
            pattern,
            divisor * factor,
            Format::double(),
        ) < 2 * (amount * factor),
        edge(pattern, divisor, Format::double()) == 2 * amount ==> edge(
            pattern,
            divisor * factor,
            Format::double(),
        ) == 2 * (amount * factor),
        edge(pattern, divisor, Format::double()) > 2 * amount ==> edge(
            pattern,
            divisor * factor,
            Format::double(),
        ) > 2 * (amount * factor),
{
    let sum = units(pattern, Format::double()) + units(pattern + 1, Format::double());
    let e = sum * divisor;
    assert(sum * (divisor * factor) == e * factor) by (nonlinear_arith)
        requires
            e == sum * divisor,
    ;
    assert(2 * (amount * factor) == (2 * amount) * factor) by (nonlinear_arith);
    let a = 2 * amount;
    assert(e < a ==> e * factor < a * factor) by (nonlinear_arith)
        requires
            factor > 0,
    ;
    assert(e > a ==> e * factor > a * factor) by (nonlinear_arith)
        requires
            factor > 0,
    ;
}

proof fn exponent_reads_back(text: Seq<char>, at: int, power: int)
    requires
        0 <= at < text.len(),
        text[at] == 'e',
        text.skip(at + 1) == shown(power),
    ensures
        exponent_at(text, at) == Some(power),
{
    let tail = shown(power);
    let size = size_of_int(power);
    digits_read_back(size);
    assert(text.skip(at + 1)[0] == tail[0]);
    let digits = digits_of(size);
    if power < 0 {
        assert(tail =~= seq!['-'] + digits);
        assert forall|i: int| at + 2 <= i < text.len() implies is_digit(#[trigger] text[i]) by {
            assert(text[i] == tail[i - at - 1]);
            assert(tail[i - at - 1] == digits[i - at - 2]);
        }
        digits_end_is(text, at + 2, text.len() as int);
        assert(text.subrange(at + 2, text.len() as int) =~= digits) by {
            assert forall|i: int| 0 <= i < digits.len() implies text.subrange(
                at + 2,
                text.len() as int,
            )[i] == digits[i] by {
                assert(text.skip(at + 1)[i + 1] == tail[i + 1]);
            }
        }
    } else {
        assert(tail =~= digits);
        assert(is_digit(digits[0]));
        assert forall|i: int| at + 1 <= i < text.len() implies is_digit(#[trigger] text[i]) by {
            assert(text[i] == tail[i - at - 1]);
        }
        digits_end_is(text, at + 1, text.len() as int);
        assert(text.subrange(at + 1, text.len() as int) =~= digits) by {
            assert forall|i: int| 0 <= i < digits.len() implies text.subrange(
                at + 1,
                text.len() as int,
            )[i] == digits[i] by {
                assert(text.skip(at + 1)[i] == tail[i]);
            }
        }
    }
}

proof fn short_exponent_reads_back(number: nat, exponent: int, pattern: int)
    requires
        0 < pattern < Format::double().top,
        reads_back(number, exponent, pattern),
        ({
            let count = digits_of(number).len() as int;
            let point = count + exponent;
            (point <= -4 || point > 16) && count == 1
        }),
    ensures
        ({
            let text = layout(digits_of(number), exponent);
            &&& text.len() > 0
            &&& is_digit(text[0])
            &&& decimal_of(text) matches Some((found, power)) && reads_back(found, power, pattern)
        }),
{
    let digits = digits_of(number);
    let text = layout(digits, exponent);
    let count = digits.len() as int;
    let point = count + exponent;
    digits_read_back(number);
    assert(is_digit(digits[0]));
    let power = shown(point - 1);
    assert(text =~= digits + (seq!['e'] + power));
    assert(text[0] == digits[0] && text[1] == 'e');
    digits_end_is(text, 0, 1);
    assert(text.skip(2) =~= power);
    exponent_reads_back(text, 1, point - 1);
    assert(fraction_digits(text, 1) =~= Seq::<char>::empty());
    assert(text.take(1) + Seq::<char>::empty() =~= digits);
}

proof fn long_exponent_reads_back(number: nat, exponent: int, pattern: int)
    requires
        0 < pattern < Format::double().top,
        reads_back(number, exponent, pattern),
        ({
            let count = digits_of(number).len() as int;
            let point = count + exponent;
            (point <= -4 || point > 16) && count > 1
        }),
    ensures
        ({
            let text = layout(digits_of(number), exponent);
            &&& text.len() > 0
            &&& is_digit(text[0])
            &&& decimal_of(text) matches Some((found, power)) && reads_back(found, power, pattern)
        }),
{
    let digits = digits_of(number);
    let text = layout(digits, exponent);
    let count = digits.len() as int;
    let point = count + exponent;
    digits_read_back(number);
    assert(is_digit(digits[0]));
    let power = shown(point - 1);
    let tail = digits.skip(1);
    assert(text =~= seq![digits[0], '.'] + tail + (seq!['e'] + power));
    assert(text[0] == digits[0] && text[1] == '.');
    digits_end_is(text, 0, 1);
    assert forall|i: int| 2 <= i < 1 + count implies is_digit(#[trigger] text[i]) by {
        assert(text[i] == digits[i - 1]);
    }
    assert(text[1 + count] == 'e');
    digits_end_is(text, 2, 1 + count);
    assert(text.skip(2 + count) =~= power);
    exponent_reads_back(text, 1 + count, point - 1);
    assert(text.subrange(2, 1 + count) =~= tail);
    assert(text.take(1) + tail =~= digits);
}

proof fn fraction_reads_back(number: nat, exponent: int, pattern: int)
    requires
        0 < pattern < Format::double().top,
        reads_back(number, exponent, pattern),
        ({
            let count = digits_of(number).len() as int;
            let point = count + exponent;
            -4 < point <= 0
        }),
    ensures
        ({
            let text = layout(digits_of(number), exponent);
            &&& text.len() > 0
            &&& is_digit(text[0])
            &&& decimal_of(text) matches Some((found, power)) && reads_back(found, power, pattern)
        }),
{
    let digits = digits_of(number);
    let text = layout(digits, exponent);
    let count = digits.len() as int;
    let point = count + exponent;
    digits_read_back(number);
    assert(is_digit(digits[0]));
    let gap = zeros(-point);
    assert(text =~= seq!['0', '.'] + (gap + digits));
    assert(text[0] == '0' && text[1] == '.');
    digits_end_is(text, 0, 1);
    let fraction = gap + digits;
    assert forall|i: int| 2 <= i < text.len() implies is_digit(#[trigger] text[i]) by {
        assert(text[i] == fraction[i - 2]);
        if i - 2 >= gap.len() {
            assert(fraction[i - 2] == digits[i - 2 - gap.len()]);
        }
    }
    digits_end_is(text, 2, text.len() as int);
    assert(text.subrange(2, text.len() as int) =~= fraction);
    assert(text.take(1) + fraction =~= zeros(1 - point) + digits);
    value_of_zeros_first(1 - point, digits);
}

proof fn whole_reads_back(number: nat, exponent: int, pattern: int)
    requires
        0 < pattern < Format::double().top,
        reads_back(number, exponent, pattern),
        ({
            let count = digits_of(number).len() as int;
            let point = count + exponent;
            0 < point <= 16 && count <= point
        }),
    ensures
        ({
            let text = layout(digits_of(number), exponent);
            &&& text.len() > 0
            &&& is_digit(text[0])
            &&& decimal_of(text) matches Some((found, power)) && reads_back(found, power, pattern)
        }),
{
    let digits = digits_of(number);
    let text = layout(digits, exponent);
    let count = digits.len() as int;
    let point = count + exponent;
    digits_read_back(number);
    assert(is_digit(digits[0]));
    let gap = zeros(point - count);
    let whole = digits + gap;
    assert(text =~= whole + seq!['.', '0']);
    assert(text[0] == digits[0]);
    assert forall|i: int| 0 <= i < point implies is_digit(#[trigger] text[i]) by {
        if i < count {
            assert(text[i] == digits[i]);
        }
    }
    assert(text[point] == '.' && text[point + 1] == '0');
    digits_end_is(text, 0, point);
    digits_end_is(text, point + 1, point + 2);
    assert(text.subrange(point + 1, point + 2) =~= seq!['0']);
    assert(text.take(point) + seq!['0'] =~= digits + zeros(point - count + 1));
    value_of_zeros_last(digits, point - count + 1);
    assert(point - count == exponent);
    let t = ten(exponent as nat);
    let s = two(1074);
    assert(ten((exponent + 1) as nat) == 10 * t);
    assert(ten(0) == 1);
    assert(ten(1) == 10 * ten(0));
    nearest_scales(pattern, number * t * s, 1, 10);
    assert((number * t * s) * 10 == (number * (10 * t)) * 1 * s) by (nonlinear_arith);
}

proof fn mixed_reads_back(number: nat, exponent: int, pattern: int)
    requires
        0 < pattern < Format::double().top,
        reads_back(number, exponent, pattern),
        ({
            let count = digits_of(number).len() as int;
            let point = count + exponent;
            0 < point <= 16 && count > point
        }),
    ensures
        ({
            let text = layout(digits_of(number), exponent);
            &&& text.len() > 0
            &&& is_digit(text[0])
            &&& decimal_of(text) matches Some((found, power)) && reads_back(found, power, pattern)
        }),
{
    let digits = digits_of(number);
    let text = layout(digits, exponent);
    let count = digits.len() as int;
    let point = count + exponent;
    digits_read_back(number);
    assert(is_digit(digits[0]));
    let front = digits.take(point);
    let back = digits.skip(point);
    assert(text =~= front + seq!['.'] + back);
    assert(text[0] == digits[0]);
    assert forall|i: int| 0 <= i < point implies is_digit(#[trigger] text[i]) by {
        assert(text[i] == digits[i]);
    }
    assert(text[point] == '.');
    digits_end_is(text, 0, point);
    assert forall|i: int| point + 1 <= i < text.len() implies is_digit(#[trigger] text[i]) by {
        assert(text[i] == digits[i - 1]);
    }
    digits_end_is(text, point + 1, text.len() as int);
    assert(text.subrange(point + 1, text.len() as int) =~= back);
    assert(text.take(point) + back =~= digits);
}

/// What is laid out denotes the digits and the power of ten, up to a factor of both.
proof fn layout_reads_back(number: nat, exponent: int, pattern: int)
    requires
        0 < pattern < Format::double().top,
        reads_back(number, exponent, pattern),
    ensures
        ({
            let text = layout(digits_of(number), exponent);
            &&& text.len() > 0
            &&& is_digit(text[0])
            &&& decimal_of(text) matches Some((found, power)) && reads_back(found, power, pattern)
        }),
{
    let count = digits_of(number).len() as int;
    let point = count + exponent;
    digits_read_back(number);
    if point <= -4 || point > 16 {
        if count == 1 {
            short_exponent_reads_back(number, exponent, pattern);
        } else {
            long_exponent_reads_back(number, exponent, pattern);
        }
    } else if point <= 0 {
        fraction_reads_back(number, exponent, pattern);
    } else if count <= point {
        whole_reads_back(number, exponent, pattern);
    } else {
        mixed_reads_back(number, exponent, pattern);
    }
}

proof fn words_start_with_letters()
    ensures
        "inf"@[0] == 'i',
        "infinity"@[0] == 'i',
        "nan"@[0] == 'n',
        "inf"@.len() == 3,
        "infinity"@.len() == 8,
        "nan"@.len() == 3,
{
    reveal_strlit("inf");
    reveal_strlit("infinity");
    reveal_strlit("nan");
}

proof fn unsigned_reads_back(text: Seq<char>, pattern: u64)
    requires
        text.len() > 0,
        is_digit(text[0]),
        pattern < Format::double().top,
        decimal_of(text) matches Some((found, power)) && reads_back(found, power, pattern as int),
    ensures
        unsigned_pattern(text, Format::double()) == Some(pattern),
{
    words_start_with_letters();
    assert(lowered(text)[0] == text[0]);
    let (found, power) = decimal_of(text)->0;
    scale_grows(0, 0, power);
    nearest_named(
        pattern,
        scale_up(found, power, Format::double()),
        scale_down(power),
        Format::double(),
    );
}

proof fn shortest_exists(pattern: u64, digits: nat, exponent: int)
    requires
        is_shortest(digits, exponent, pattern as int),
        0 < pattern < Format::double().top,
    ensures
        shown_magnitude(pattern as int) == layout(digits_of(digits), exponent),
        reads_back(digits, exponent, pattern as int),
{
    let parts = shortest_of(pattern as int);
    let found = (digits, exponent);
    assert(is_shortest(found.0, found.1, pattern as int));
    assert(is_shortest(parts.0, parts.1, pattern as int));
    shortest_is_one(parts.0, parts.1, digits, exponent, pattern as int);
    shortest_reads_back(digits, exponent, pattern as int);
}

/// Every finite number is written with some digits: a descent over the powers of ten ends.
proof fn shortest_descent(pattern: u64, exponent: int, floor: nat) -> (parts: (nat, int))
    requires
        0 < pattern < Format::double().top,
        -1074 < exponent <= 401,
        is_floor(floor, exponent, pattern as int),
        forall|digits: nat, other: int|
            other >= exponent ==> !#[trigger] reads_back(digits, other, pattern as int),
    ensures
        is_shortest(parts.0, parts.1, pattern as int),
    decreases exponent + 1074,
{
    let next = exponent - 1;
    floor_in_tenths(floor, next, pattern as int);
    let lower = floor_search(10 * floor, 10, next, pattern as int);
    if reads_back(lower, next, pattern as int) || reads_back(lower + 1, next, pattern as int) {
        assert(coarsest(next, pattern as int));
        (closest(lower, next, pattern as int), next)
    } else {
        if next == -1074 {
            finest_reads_back(lower, pattern as int);
        }
        assert forall|digits: nat, other: int| other >= next implies !#[trigger] reads_back(
            digits,
            other,
            pattern as int,
        ) by {
            if other == next && reads_back(digits, other, pattern as int) {
                some_neighbour_reads_back(digits, lower, other, pattern as int);
            }
        }
        shortest_descent(pattern, next, lower)
    }
}

proof fn floor_search(low: nat, count: nat, exponent: int, pattern: int) -> (floor: nat)
    requires
        scale_up(low, exponent, Format::double()) <= scaled_value(exponent, pattern),
        scaled_value(exponent, pattern) < scale_up(low + count, exponent, Format::double()),
    ensures
        is_floor(floor, exponent, pattern),
    decreases count,
{
    if scaled_value(exponent, pattern) < scale_up(low + 1, exponent, Format::double()) {
        low
    } else {
        floor_search(low + 1, (count - 1) as nat, exponent, pattern)
    }
}

/// A finite number that is written out reads back as itself.
pub proof fn written_number_reads_back(bits: u64)
    requires
        finite(bits),
    ensures
        read_double(shown_double(bits)) == Some(bits),
{
    let pattern = magnitude(bits);
    let text = shown_magnitude(pattern as int);
    if pattern == 0 {
        assert(text =~= seq!['0', '.', '0']);
        digits_end_is(text, 0, 1);
        digits_end_is(text, 2, 3);
        assert(text.subrange(2, 3) =~= seq!['0']);
        assert(text.take(1) + seq!['0'] =~= zeros(2) + Seq::<char>::empty());
        value_of_zeros_first(2, Seq::<char>::empty());
        zero_is_nearest(-1, Format::double());
    } else {
        beyond_at_last(pattern as int);
        beyond_has_no_floor(401, pattern as int);
        assert forall|digits: nat, other: int| other >= 401 implies !#[trigger] reads_back(
            digits,
            other,
            pattern as int,
        ) by {
            beyond_is_final(401, other, digits, pattern as int);
        }
        let parts = shortest_descent(pattern, 401, 0);
        shortest_exists(pattern, parts.0, parts.1);
        layout_reads_back(parts.0, parts.1, pattern as int);
    }
    unsigned_reads_back(text, pattern);
    let whole = shown_double(bits);
    if negative(bits) {
        assert(whole.skip(1) =~= text);
        assert(without_sign(whole) == text);
    } else {
        assert(without_sign(whole) == text);
    }
}

} // verus!
