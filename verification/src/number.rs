//! Whole numbers written in decimal.

use crate::text::characters;
use vstd::prelude::*;

verus! {

/// Whether `c` is one of `0` to `9`.
pub open spec fn is_digit(c: char) -> bool {
    '0' <= c && c <= '9'
}

/// The value of a decimal digit.
pub open spec fn digit_value(c: char) -> nat {
    (c as int - '0' as int) as nat
}

/// The decimal digit for a value below ten.
pub open spec fn digit_of(value: nat) -> char {
    ('0' as int + value) as char
}

/// Whether every character is a decimal digit.
pub open spec fn all_digits(text: Seq<char>) -> bool {
    forall|i: int| 0 <= i < text.len() ==> is_digit(#[trigger] text[i])
}

/// The number that a run of decimal digits denotes.
pub open spec fn value_of(digits: Seq<char>) -> nat
    decreases digits.len(),
{
    if digits.len() == 0 {
        0
    } else {
        value_of(digits.drop_last()) * 10 + digit_value(digits.last())
    }
}

/// The decimal digits of a number, with no leading zero.
pub open spec fn digits_of(number: nat) -> Seq<char>
    decreases number,
{
    if number < 10 {
        seq![digit_of(number)]
    } else {
        digits_of(number / 10).push(digit_of(number % 10))
    }
}

/// How a signed number is written.
pub open spec fn shown(number: int) -> Seq<char> {
    if number < 0 {
        seq!['-'] + digits_of((-number) as nat)
    } else {
        digits_of(number as nat)
    }
}

/// The digits behind an optional sign.
pub open spec fn unsigned_part(text: Seq<char>) -> Seq<char> {
    if text.len() > 0 && (text[0] == '-' || text[0] == '+') {
        text.drop_first()
    } else {
        text
    }
}

/// Whether `text` is a number: an optional sign, then at least one digit.
pub open spec fn is_number(text: Seq<char>) -> bool {
    unsigned_part(text).len() > 0 && all_digits(unsigned_part(text))
}

/// The number that `text` denotes.
pub open spec fn number_of(text: Seq<char>) -> int {
    if text.len() > 0 && text[0] == '-' {
        -(value_of(unsigned_part(text)) as int)
    } else {
        value_of(unsigned_part(text)) as int
    }
}

/// What reading `text` as a number between `low` and `high` yields.
pub open spec fn read_within(text: Seq<char>, low: int, high: int) -> Option<int> {
    if is_number(text) && low <= number_of(text) <= high {
        Some(number_of(text))
    } else {
        None
    }
}

/// What reading `text` as a signed 64-bit number yields.
pub open spec fn read_signed(text: Seq<char>) -> Option<int> {
    read_within(text, i64::MIN as int, i64::MAX as int)
}

/// What reading `text` as a number from zero to `limit` yields. A minus sign is refused.
pub open spec fn read_unsigned(text: Seq<char>, limit: int) -> Option<int> {
    if text.len() > 0 && text[0] == '-' {
        None
    } else {
        read_within(text, 0, limit)
    }
}

/// Writing a number and reading its digits back yields the number.
pub proof fn digits_read_back(number: nat)
    ensures
        all_digits(digits_of(number)),
        digits_of(number).len() > 0,
        value_of(digits_of(number)) == number,
    decreases number,
{
    reveal_with_fuel(value_of, 2);
    let last = digit_of(number % 10);
    assert(is_digit(last) && digit_value(last) == number % 10);
    if number < 10 {
        assert(digits_of(number).drop_last() =~= Seq::<char>::empty());
    } else {
        digits_read_back(number / 10);
        assert(digits_of(number).drop_last() =~= digits_of(number / 10));
    }
}

/// A signed number that is written out reads back as itself.
pub proof fn shown_reads_back(number: int)
    requires
        i64::MIN <= number <= i64::MAX,
    ensures
        read_signed(shown(number)) == Some(number),
{
    if number < 0 {
        digits_read_back((-number) as nat);
        assert(shown(number).drop_first() =~= digits_of((-number) as nat));
    } else {
        digits_read_back(number as nat);
        assert(is_digit(digits_of(number as nat)[0]));
    }
}

/// An unsigned number that is written out reads back as itself.
pub proof fn digits_read_unsigned(number: nat, limit: int)
    requires
        number <= limit,
    ensures
        read_unsigned(digits_of(number), limit) == Some(number as int),
{
    digits_read_back(number);
    assert(is_digit(digits_of(number)[0]));
}

proof fn value_of_prefix(digits: Seq<char>, upto: int)
    requires
        all_digits(digits),
        0 <= upto <= digits.len(),
    ensures
        value_of(digits.take(upto)) <= value_of(digits),
    decreases digits.len() - upto,
{
    if upto < digits.len() {
        value_of_prefix(digits, upto + 1);
        assert(digits.take(upto + 1).drop_last() =~= digits.take(upto));
        assert(is_digit(digits[upto]));
    } else {
        assert(digits.take(upto) =~= digits);
    }
}

/// Appends the decimal digits of `number` to `out`.
pub fn write_digits(out: &mut String, number: u64)
    ensures
        final(out)@ == old(out)@ + digits_of(number as nat),
    decreases number,
{
    let last: u8 = (number % 10) as u8;
    let digit: char = (48u8 + last) as char;
    if number >= 10 {
        write_digits(out, number / 10);
        out.push(digit);
        assert(out@ =~= old(out)@ + digits_of(number as nat));
    } else {
        out.push(digit);
        assert(out@ =~= old(out)@ + digits_of(number as nat));
    }
}

/// The decimal digits of `number`.
pub fn show_unsigned(number: u64) -> (text: String)
    ensures
        text@ == digits_of(number as nat),
{
    let mut text = String::new();
    write_digits(&mut text, number);
    assert(text@ =~= digits_of(number as nat));
    text
}

/// The decimal form of `number`.
pub fn show_signed(number: i64) -> (text: String)
    ensures
        text@ == shown(number as int),
{
    let mut text = String::new();
    if number < 0 {
        let size: u64 = if number == i64::MIN {
            9223372036854775808
        } else {
            (-number) as u64
        };
        text.push('-');
        write_digits(&mut text, size);
        assert(text@ =~= shown(number as int));
    } else {
        write_digits(&mut text, number as u64);
        assert(text@ =~= shown(number as int));
    }
    text
}

/// Reads `characters[from..]` as digits of a number that is at most `limit`.
fn read_digits(characters: &Vec<char>, from: usize, limit: u64) -> (read: Option<u64>)
    requires
        from <= characters@.len(),
    ensures
        ({
            let digits = characters@.subrange(from as int, characters@.len() as int);
            read == (if digits.len() > 0 && all_digits(digits) && value_of(digits) <= limit {
                Some(value_of(digits) as u64)
            } else {
                None
            })
        }),
{
    let ghost digits = characters@.subrange(from as int, characters@.len() as int);
    if from == characters.len() {
        return None;
    }
    let mut at: usize = from;
    let mut number: u128 = 0;
    let mut fits = true;
    assert(digits.take(0) =~= Seq::<char>::empty());
    while at < characters.len()
        invariant
            from <= at <= characters@.len(),
            digits == characters@.subrange(from as int, characters@.len() as int),
            fits ==> number == value_of(digits.take(at - from)) && number <= limit,
            !fits ==> exists|upto: int|
                0 <= upto <= at - from && value_of(#[trigger] digits.take(upto)) > limit,
            forall|i: int| 0 <= i < at - from ==> is_digit(#[trigger] digits[i]),
        decreases characters@.len() - at,
    {
        let character: char = characters[at];
        assert(character == digits[at - from]);
        if !(character >= '0' && character <= '9') {
            return None;
        }
        if fits {
            let digit: u32 = character as u32 - 48;
            number = number * 10 + digit as u128;
            assert(digits.take(at - from + 1).drop_last() =~= digits.take(at - from));
            if number > limit as u128 {
                fits = false;
                assert(value_of(digits.take(at - from + 1)) > limit);
            }
        }
        at = at + 1;
    }
    assert(digits.take(digits.len() as int) =~= digits);
    if fits {
        Some(number as u64)
    } else {
        proof {
            let upto = choose|upto: int|
                0 <= upto <= at - from && value_of(#[trigger] digits.take(upto)) > limit;
            value_of_prefix(digits, upto);
        }
        None
    }
}

/// Reads a signed 64-bit number: an optional sign, then digits.
pub fn parse_signed(text: &str) -> (read: Option<i64>)
    ensures
        match read {
            Some(number) => read_signed(text@) == Some(number as int),
            None => read_signed(text@) is None,
        },
{
    let all = characters(text);
    if all.len() > 0 && (all[0] == '-' || all[0] == '+') {
        assert(text@.drop_first() =~= text@.subrange(1, text@.len() as int));
        if all[0] == '-' {
            match read_digits(&all, 1, 9223372036854775808) {
                None => None,
                Some(size) => {
                    if size == 9223372036854775808 {
                        Some(i64::MIN)
                    } else {
                        Some(-(size as i64))
                    }
                }
            }
        } else {
            match read_digits(&all, 1, 9223372036854775807) {
                None => None,
                Some(size) => Some(size as i64),
            }
        }
    } else {
        assert(text@.subrange(0, text@.len() as int) =~= text@);
        match read_digits(&all, 0, 9223372036854775807) {
            None => None,
            Some(size) => Some(size as i64),
        }
    }
}

/// Reads a number from zero to `limit`: an optional plus sign, then digits.
pub fn parse_unsigned(text: &str, limit: u64) -> (read: Option<u64>)
    ensures
        match read {
            Some(number) => read_unsigned(text@, limit as int) == Some(number as int),
            None => read_unsigned(text@, limit as int) is None,
        },
{
    let all = characters(text);
    if all.len() > 0 && all[0] == '-' {
        return None;
    }
    if all.len() > 0 && all[0] == '+' {
        assert(text@.drop_first() =~= text@.subrange(1, text@.len() as int));
        read_digits(&all, 1, limit)
    } else {
        assert(text@.subrange(0, text@.len() as int) =~= text@);
        read_digits(&all, 0, limit)
    }
}

} // verus!
