//! Property values.

use crate::float::finite;
use crate::float::is_finite;
use crate::text::characters;
use crate::text::views;
use crate::text::views_push;
use vstd::prelude::*;

verus! {

/// Why a number was rejected.
#[derive(Clone, Copy, Debug, PartialEq, Eq, Structural)]
pub enum NumberError {
    /// The number is infinite, or no number.
    NotFinite,
}

impl NumberError {
    /// The message this error is shown with.
    pub open spec fn spec_message(&self) -> Seq<char> {
        "a number must be finite"@
    }

    /// The message this error is shown with.
    pub fn message(&self) -> (text: String)
        ensures
            text@ == self.spec_message(),
    {
        "a number must be finite".to_owned()
    }
}

/// A finite 64-bit floating-point number, by its bits.
#[derive(Clone, Copy, Debug, PartialEq, Eq, Structural)]
pub struct FiniteF64 {
    bits: u64,
}

impl View for FiniteF64 {
    type V = u64;

    closed spec fn view(&self) -> u64 {
        self.bits
    }
}

impl FiniteF64 {
    #[verifier::type_invariant]
    spec fn holds_a_finite_number(&self) -> bool {
        finite(self.bits)
    }

    /// Wraps the bits of a finite number.
    pub fn new(bits: u64) -> (made: Result<Self, NumberError>)
        ensures
            made is Ok <==> finite(bits),
            made matches Ok(number) ==> number@ == bits,
            made matches Err(error) ==> error == NumberError::NotFinite,
    {
        if is_finite(bits) {
            Ok(FiniteF64 { bits })
        } else {
            Err(NumberError::NotFinite)
        }
    }

    /// The bits of the number.
    pub fn get(self) -> (bits: u64)
        ensures
            bits == self@,
            finite(bits),
    {
        proof {
            use_type_invariant(&self);
        }
        self.bits
    }

    /// Two numbers with the same bits are one number.
    pub proof fn same_bits(left: Self, right: Self)
        requires
            left@ == right@,
        ensures
            left == right,
    {
    }
}

// -- Timestamps --------------------------------------------------------------------

/// The value of the two digits at `at`, where there are two digits.
pub open spec fn two_digits(text: Seq<char>, at: int) -> Option<int> {
    if 0 <= at && at + 2 <= text.len() && '0' <= text[at] && text[at] <= '9' && '0' <= text[at + 1]
        && text[at + 1] <= '9' {
        Some((text[at] as int - '0' as int) * 10 + (text[at + 1] as int - '0' as int))
    } else {
        None
    }
}

/// Whether the two digits at `at` are within `low` through `high`.
pub open spec fn two_within(text: Seq<char>, at: int, low: int, high: int) -> bool {
    two_digits(text, at) matches Some(value) && low <= value <= high
}

/// Whether a year has a 29 February.
pub open spec fn leap_year(year: int) -> bool {
    year % 4 == 0 && (year % 100 != 0 || year % 400 == 0)
}

/// How many days a month has.
pub open spec fn days_in(year: int, month: int) -> int {
    if month == 2 {
        if leap_year(year) {
            29
        } else {
            28
        }
    } else if month == 4 || month == 6 || month == 9 || month == 11 {
        30
    } else {
        31
    }
}

/// Where the digits that start at `at` end.
pub open spec fn fraction_run(text: Seq<char>, at: int) -> int
    decreases text.len() - at,
{
    if at < text.len() && '0' <= text[at] && text[at] <= '9' {
        fraction_run(text, at + 1)
    } else {
        at
    }
}

/// Where the optional fraction of a second, which starts at 19, ends. A point without
/// digits is no fraction.
pub open spec fn second_end(text: Seq<char>) -> Option<int> {
    if text.len() > 19 && text[19] == '.' {
        let end = fraction_run(text, 20);
        if end > 20 {
            Some(end)
        } else {
            None
        }
    } else {
        Some(19)
    }
}

/// Whether the offset at `at` ends the text: `Z`, or a sign and hours and minutes.
pub open spec fn offset_at(text: Seq<char>, at: int) -> bool {
    ||| at + 1 == text.len() && (text[at] == 'Z' || text[at] == 'z')
    ||| at + 6 == text.len() && (text[at] == '+' || text[at] == '-') && text[at + 3] == ':'
        && two_within(text, at + 1, 0, 23) && two_within(text, at + 4, 0, 59)
}

/// Whether `text` is an RFC 3339 timestamp.
pub open spec fn valid_datetime(text: Seq<char>) -> bool {
    &&& text.len() >= 20
    &&& two_digits(text, 0) is Some
    &&& two_digits(text, 2) is Some
    &&& text[4] == '-'
    &&& two_within(text, 5, 1, 12)
    &&& text[7] == '-'
    &&& two_within(
        text,
        8,
        1,
        days_in(two_digits(text, 0)->0 * 100 + two_digits(text, 2)->0, two_digits(text, 5)->0),
    )
    &&& text[10] == 'T' || text[10] == 't'
    &&& two_within(text, 11, 0, 23)
    &&& text[13] == ':'
    &&& two_within(text, 14, 0, 59)
    &&& text[16] == ':'
    &&& two_within(text, 17, 0, 60)
    &&& second_end(text) matches Some(end) && offset_at(text, end)
}

fn read_two(text: &Vec<char>, at: usize) -> (value: Option<u32>)
    requires
        at < 1000000000000,
    ensures
        match value {
            Some(number) => two_digits(text@, at as int) == Some(number as int) && number < 100,
            None => two_digits(text@, at as int) is None,
        },
{
    if at > text.len() || text.len() - at < 2 {
        return None;
    }
    let a: char = text[at];
    let b: char = text[at + 1];
    if a >= '0' && a <= '9' && b >= '0' && b <= '9' {
        Some((a as u32 - 48) * 10 + (b as u32 - 48))
    } else {
        None
    }
}

fn is_within(text: &Vec<char>, at: usize, low: u32, high: u32) -> (answer: bool)
    requires
        at < 1000000000000,
    ensures
        answer == two_within(text@, at as int, low as int, high as int),
{
    match read_two(text, at) {
        Some(value) => low <= value && value <= high,
        None => false,
    }
}

fn month_days(year: u32, month: u32) -> (days: u32)
    ensures
        days == days_in(year as int, month as int),
{
    if month == 2 {
        if year % 4 == 0 && (year % 100 != 0 || year % 400 == 0) {
            29
        } else {
            28
        }
    } else if month == 4 || month == 6 || month == 9 || month == 11 {
        30
    } else {
        31
    }
}

/// Whether the fraction and the offset behind the seconds are well formed.
fn check_tail(text: &Vec<char>) -> (answer: bool)
    requires
        text@.len() >= 20,
    ensures
        answer == (second_end(text@) matches Some(end) && offset_at(text@, end)),
{
    let mut end: usize = 19;
    if text[19] == '.' {
        end = 20;
        while end < text.len() && text[end] >= '0' && text[end] <= '9'
            invariant
                20 <= end <= text@.len(),
                fraction_run(text@, 20) == fraction_run(text@, end as int),
            decreases text@.len() - end,
        {
            end = end + 1;
        }
        if end == 20 {
            return false;
        }
    }
    let left: usize = text.len() - end;
    if left == 1 {
        return text[end] == 'Z' || text[end] == 'z';
    }
    if left != 6 {
        return false;
    }
    let hours_tens: char = text[end + 1];
    let hours_ones: char = text[end + 2];
    let minutes_tens: char = text[end + 4];
    let minutes_ones: char = text[end + 5];
    let digits = hours_tens >= '0' && hours_tens <= '9' && hours_ones >= '0' && hours_ones <= '9'
        && minutes_tens >= '0' && minutes_tens <= '9' && minutes_ones >= '0' && minutes_ones <= '9';
    if !digits {
        return false;
    }
    let hours: u32 = (hours_tens as u32 - 48) * 10 + (hours_ones as u32 - 48);
    let minutes: u32 = (minutes_tens as u32 - 48) * 10 + (minutes_ones as u32 - 48);
    (text[end] == '+' || text[end] == '-') && text[end + 3] == ':' && hours <= 23 && minutes <= 59
}

/// Why a timestamp was rejected.
#[derive(Clone, Copy, Debug, PartialEq, Eq, Structural)]
pub enum DateTimeError {
    /// The text is no RFC 3339 timestamp.
    Malformed,
}

impl DateTimeError {
    /// The message this error is shown with.
    pub open spec fn spec_message(&self) -> Seq<char> {
        "a timestamp is written as RFC 3339 describes"@
    }

    /// The message this error is shown with.
    pub fn message(&self) -> (text: String)
        ensures
            text@ == self.spec_message(),
    {
        "a timestamp is written as RFC 3339 describes".to_owned()
    }
}

/// An RFC 3339 timestamp, as written.
#[derive(Debug, PartialEq, Eq, PartialOrd, Ord, Hash)]
pub struct DateTime {
    text: String,
}

impl View for DateTime {
    type V = Seq<char>;

    closed spec fn view(&self) -> Seq<char> {
        self.text@
    }
}

impl DateTime {
    #[verifier::type_invariant]
    spec fn holds_a_timestamp(&self) -> bool {
        valid_datetime(self.text@)
    }

    /// Validates and wraps a timestamp.
    pub fn new(value: &str) -> (made: Result<Self, DateTimeError>)
        ensures
            made is Ok <==> valid_datetime(value@),
            made matches Ok(moment) ==> moment@ == value@,
            made matches Err(error) ==> error == DateTimeError::Malformed,
    {
        let all = characters(value);
        if all.len() < 20 {
            return Err(DateTimeError::Malformed);
        }
        let (century, year, month) = match (
            read_two(&all, 0),
            read_two(&all, 2),
            read_two(&all, 5),
        ) {
            (Some(century), Some(year), Some(month)) => (century, year, month),
            _ => {
                return Err(DateTimeError::Malformed);
            }
        };
        let fits = all[4] == '-' && is_within(&all, 5, 1, 12) && all[7] == '-' && is_within(
            &all,
            8,
            1,
            month_days(century * 100 + year, month),
        ) && (all[10] == 'T' || all[10] == 't') && is_within(&all, 11, 0, 23) && all[13] == ':'
            && is_within(&all, 14, 0, 59) && all[16] == ':' && is_within(&all, 17, 0, 60)
            && check_tail(&all);
        if fits {
            Ok(DateTime { text: value.to_owned() })
        } else {
            Err(DateTimeError::Malformed)
        }
    }

    /// Borrows the timestamp.
    pub fn as_str(&self) -> (text: &str)
        ensures
            text@ == self@,
            valid_datetime(text@),
    {
        proof {
            use_type_invariant(self);
        }
        self.text.as_str()
    }
}

impl Clone for DateTime {
    fn clone(&self) -> (copy: Self)
        ensures
            copy@ == self@,
    {
        proof {
            use_type_invariant(self);
        }
        DateTime { text: self.text.clone() }
    }
}

// -- Values ------------------------------------------------------------------------

/// A value that a list can hold.
#[derive(Debug, PartialEq, Eq)]
pub enum PropertyScalar {
    /// A boolean.
    Boolean(bool),
    /// An integer.
    Integer(i64),
    /// A finite number.
    Float(FiniteF64),
    /// Text.
    String(String),
    /// Bytes.
    Bytes(Vec<u8>),
    /// A timestamp.
    DateTime(DateTime),
}

/// What a scalar says.
pub enum ScalarModel {
    /// A boolean.
    Boolean(bool),
    /// An integer.
    Integer(i64),
    /// A finite number, by its bits.
    Float(u64),
    /// Text.
    String(Seq<char>),
    /// Bytes.
    Bytes(Seq<u8>),
    /// A timestamp.
    DateTime(Seq<char>),
}

impl View for PropertyScalar {
    type V = ScalarModel;

    open spec fn view(&self) -> ScalarModel {
        match self {
            PropertyScalar::Boolean(flag) => ScalarModel::Boolean(*flag),
            PropertyScalar::Integer(number) => ScalarModel::Integer(*number),
            PropertyScalar::Float(number) => ScalarModel::Float(number@),
            PropertyScalar::String(text) => ScalarModel::String(text@),
            PropertyScalar::Bytes(bytes) => ScalarModel::Bytes(bytes@),
            PropertyScalar::DateTime(moment) => ScalarModel::DateTime(moment@),
        }
    }
}

/// A copy of some bytes.
pub fn copy_bytes(bytes: &Vec<u8>) -> (copy: Vec<u8>)
    ensures
        copy@ == bytes@,
{
    let mut copy: Vec<u8> = Vec::new();
    let mut at: usize = 0;
    while at < bytes.len()
        invariant
            at <= bytes@.len(),
            copy@ == bytes@.take(at as int),
        decreases bytes@.len() - at,
    {
        copy.push(bytes[at]);
        at = at + 1;
        assert(copy@ =~= bytes@.take(at as int));
    }
    assert(copy@ =~= bytes@);
    copy
}

impl Clone for PropertyScalar {
    fn clone(&self) -> (copy: Self)
        ensures
            copy@ == self@,
    {
        match self {
            PropertyScalar::Boolean(flag) => PropertyScalar::Boolean(*flag),
            PropertyScalar::Integer(number) => PropertyScalar::Integer(*number),
            PropertyScalar::Float(number) => PropertyScalar::Float(*number),
            PropertyScalar::String(text) => PropertyScalar::String(text.clone()),
            PropertyScalar::Bytes(bytes) => PropertyScalar::Bytes(copy_bytes(bytes)),
            PropertyScalar::DateTime(moment) => PropertyScalar::DateTime(moment.clone()),
        }
    }
}

/// A stored property value.
#[derive(Debug, PartialEq, Eq)]
pub enum PropertyValue {
    /// A boolean.
    Boolean(bool),
    /// An integer.
    Integer(i64),
    /// A finite number.
    Float(FiniteF64),
    /// Text.
    String(String),
    /// Bytes.
    Bytes(Vec<u8>),
    /// A timestamp.
    DateTime(DateTime),
    /// A list of scalars, which does not nest.
    List(Vec<PropertyScalar>),
}

/// What a property value says.
pub enum PropertyModel {
    /// One scalar.
    Scalar(ScalarModel),
    /// A list of scalars.
    List(Seq<ScalarModel>),
}

impl View for PropertyValue {
    type V = PropertyModel;

    open spec fn view(&self) -> PropertyModel {
        match self {
            PropertyValue::Boolean(flag) => PropertyModel::Scalar(ScalarModel::Boolean(*flag)),
            PropertyValue::Integer(number) => PropertyModel::Scalar(ScalarModel::Integer(*number)),
            PropertyValue::Float(number) => PropertyModel::Scalar(ScalarModel::Float(number@)),
            PropertyValue::String(text) => PropertyModel::Scalar(ScalarModel::String(text@)),
            PropertyValue::Bytes(bytes) => PropertyModel::Scalar(ScalarModel::Bytes(bytes@)),
            PropertyValue::DateTime(moment) => PropertyModel::Scalar(
                ScalarModel::DateTime(moment@),
            ),
            PropertyValue::List(items) => PropertyModel::List(views(items@)),
        }
    }
}

impl PropertyValue {
    /// A text value.
    pub fn from(text: &str) -> (value: Self)
        ensures
            value@ == PropertyModel::Scalar(ScalarModel::String(text@)),
    {
        PropertyValue::String(text.to_owned())
    }

    /// The value that holds one scalar.
    pub fn from_scalar(scalar: PropertyScalar) -> (value: Self)
        ensures
            value@ == PropertyModel::Scalar(scalar@),
    {
        match scalar {
            PropertyScalar::Boolean(flag) => PropertyValue::Boolean(flag),
            PropertyScalar::Integer(number) => PropertyValue::Integer(number),
            PropertyScalar::Float(number) => PropertyValue::Float(number),
            PropertyScalar::String(text) => PropertyValue::String(text),
            PropertyScalar::Bytes(bytes) => PropertyValue::Bytes(bytes),
            PropertyScalar::DateTime(moment) => PropertyValue::DateTime(moment),
        }
    }
}

/// A copy of a list of scalars.
pub fn copy_scalars(items: &Vec<PropertyScalar>) -> (copy: Vec<PropertyScalar>)
    ensures
        views(copy@) == views(items@),
{
    let mut copy: Vec<PropertyScalar> = Vec::new();
    let mut at: usize = 0;
    while at < items.len()
        invariant
            at <= items@.len(),
            views(copy@) =~= views(items@).take(at as int),
        decreases items@.len() - at,
    {
        let item = items[at].clone();
        proof {
            views_push(copy@, item);
        }
        copy.push(item);
        at = at + 1;
    }
    assert(views(copy@) =~= views(items@));
    copy
}

impl Clone for PropertyValue {
    fn clone(&self) -> (copy: Self)
        ensures
            copy@ == self@,
    {
        match self {
            PropertyValue::Boolean(flag) => PropertyValue::Boolean(*flag),
            PropertyValue::Integer(number) => PropertyValue::Integer(*number),
            PropertyValue::Float(number) => PropertyValue::Float(*number),
            PropertyValue::String(text) => PropertyValue::String(text.clone()),
            PropertyValue::Bytes(bytes) => PropertyValue::Bytes(copy_bytes(bytes)),
            PropertyValue::DateTime(moment) => PropertyValue::DateTime(moment.clone()),
            PropertyValue::List(items) => PropertyValue::List(copy_scalars(items)),
        }
    }
}

} // verus!
