//! How numbers are added, divided and compared, and how values that hold others compare.

use crate::big::Relation;
use crate::crc::bit_step;
use crate::crc::bit_steps;
use crate::crc::crc_of;
use crate::crc::remainder_of;
use crate::float::added;
use crate::float::divided;
use crate::float::exact_is_nearest;
use crate::float::finite;
use crate::float::integer_units;
use crate::float::magnitude;
use crate::float::nearest_named;
use crate::float::negative;
use crate::float::rounded;
use crate::float::signed_units;
use crate::float::units;
use crate::float::with_sign;
use crate::float::Format;
use crate::value::compared;
use crate::value::equal;
use crate::value::of_lists;
use crate::value::QueryModel;
use vstd::prelude::*;

verus! {

// -- Adding and dividing -----------------------------------------------------------

proof fn a_number_is_its_sign_and_size(bits: u64)
    ensures
        with_sign(negative(bits), magnitude(bits)) == bits,
{
}

proof fn an_exact_value_stays(bits: u64, value: int)
    requires
        finite(bits),
        signed_units(bits) == value,
        value != 0,
    ensures
        rounded(value) == bits,
{
    let pattern = magnitude(bits);
    let format = Format::double();
    let size = units(pattern as int, format);
    exact_is_nearest(pattern as int, 1, format);
    assert(size * 1 == size) by (nonlinear_arith);
    nearest_named(pattern, size, 1, format);
    a_number_is_its_sign_and_size(bits);
}

/// A sum that is a number itself is that number: where the values of two numbers add up to the
/// value of a third, which is not zero, their sum is the third. The order does not matter, and
/// a number and its opposite come to zero.
pub proof fn sums_are_exact_where_they_can_be(a: u64, b: u64, c: u64)
    requires
        finite(c),
    ensures
        signed_units(a) + signed_units(b) == signed_units(c) && signed_units(c) != 0 ==> added(a, b)
            == c,
        added(a, b) == added(b, a),
        signed_units(a) + signed_units(b) == 0 && !negative(a) ==> added(a, b) == 0,
{
    if signed_units(a) + signed_units(b) == signed_units(c) && signed_units(c) != 0 {
        an_exact_value_stays(c, signed_units(c));
    }
}

/// A quotient that is a number itself is that number: where so many times the size of one number
/// is the size of another of the same sign, the other divided by so many is the one.
pub proof fn quotients_are_exact_where_they_can_be(total: u64, one: u64, count: u64)
    requires
        finite(one),
        count > 0,
        negative(total) == negative(one),
        units(magnitude(total) as int, Format::double()) == units(
            magnitude(one) as int,
            Format::double(),
        ) * count,
    ensures
        divided(total, count) == one,
{
    let pattern = magnitude(one);
    let format = Format::double();
    exact_is_nearest(pattern as int, count as nat, format);
    nearest_named(pattern, units(pattern as int, format) * (count as nat), count as nat, format);
    a_number_is_its_sign_and_size(one);
}

// -- Comparing ---------------------------------------------------------------------

/// The value of a number, in the smallest steps there are.
pub open spec fn amount_of(value: QueryModel) -> int {
    match value {
        QueryModel::Integer(number) => integer_units(number as int),
        QueryModel::Float(bits) => signed_units(bits),
        _ => 0,
    }
}

/// Numbers compare by their value, whether they are integers or floats.
pub proof fn numbers_compare_by_value(a: QueryModel, b: QueryModel)
    requires
        a is Integer || a is Float,
        b is Integer || b is Float,
    ensures
        equal(a, b) <==> amount_of(a) == amount_of(b),
        compared(a, b) == Relation::Below <==> amount_of(a) < amount_of(b),
        compared(a, b) == Relation::Above <==> amount_of(a) > amount_of(b),
{
}

/// Lists compare by the first place at which they differ, and where one is the front of the
/// other the shorter one comes first.
pub proof fn lists_compare_by_their_first_difference(
    a: Seq<QueryModel>,
    b: Seq<QueryModel>,
    at: int,
    k: int,
)
    requires
        0 <= at <= k <= a.len(),
        k <= b.len(),
        forall|i: int|
            at <= i < k ==> compared(#[trigger] a[i], #[trigger] b[i]) == Relation::Same,
    ensures
        k < a.len() && k < b.len() && compared(a[k], b[k]) != Relation::Same ==> of_lists(a, b, at)
            == compared(a[k], b[k]),
        k == a.len() && k < b.len() ==> of_lists(a, b, at) == Relation::Below,
        k == b.len() && k < a.len() ==> of_lists(a, b, at) == Relation::Above,
        k == a.len() && k == b.len() ==> of_lists(a, b, at) == Relation::Same,
    decreases k - at,
{
    if at < k {
        assert(compared(a[at], b[at]) == Relation::Same);
        lists_compare_by_their_first_difference(a, b, at + 1, k);
    }
}

// -- Checksums ---------------------------------------------------------------------

/// One bit of the division drops the last bit, and takes the Castagnoli polynomial where that
/// bit was set.
pub proof fn a_bit_is_divided_by_the_polynomial(half: u32)
    requires
        half < 0x8000_0000,
    ensures
        bit_step((2 * half) as u32) == half,
        bit_step((2 * half + 1) as u32) == half ^ 0x82f6_3b78u32,
{
    let even = (2 * half) as u32;
    let odd = (2 * half + 1) as u32;
    assert(even & 1 == 0 && even >> 1 == half) by (bit_vector)
        requires
            half < 0x8000_0000u32,
            even == 2 * half,
    ;
    assert(odd & 1 == 1 && odd >> 1 == half) by (bit_vector)
        requires
            half < 0x8000_0000u32,
            odd == 2 * half + 1,
    ;
}

/// The checksum of nothing is zero, and one byte more divides its eight bits in, behind those of
/// the bytes before it.
pub proof fn a_checksum_goes_on_byte_by_byte(bytes: Seq<u8>, byte: u8)
    ensures
        crc_of(Seq::empty()) == 0,
        crc_of(bytes.push(byte)) ^ 0xffff_ffffu32 == bit_steps(
            (crc_of(bytes) ^ 0xffff_ffffu32) ^ (byte as u32),
            8,
        ),
{
    let more = bytes.push(byte);
    assert(more.drop_last() =~= bytes);
    let a = remainder_of(bytes);
    let b = remainder_of(more);
    assert((a ^ 0xffff_ffffu32) ^ 0xffff_ffffu32 == a) by (bit_vector);
    assert((b ^ 0xffff_ffffu32) ^ 0xffff_ffffu32 == b) by (bit_vector);
    assert(0xffff_ffffu32 ^ 0xffff_ffffu32 == 0u32) by (bit_vector);
    assert(remainder_of(Seq::empty()) == 0xffff_ffffu32);
}

} // verus!
