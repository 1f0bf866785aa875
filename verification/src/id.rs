//! Opaque record identifiers.
//!
//! An identifier is sixteen opaque bytes. Nothing in the model interprets their content.
//! The textual form is a two-character kind prefix followed by a UUID in canonical
//! lower-case text, so one set of bytes has exactly one spelling.
//!
//! [`Minter`] assigns identifiers to the records a transaction creates.

use crate::number::digits_of;
use crate::number::write_digits;
use crate::text::characters;
use vstd::prelude::*;
use vstd::string::StringExecFns;

verus! {

/// Characters in the canonical text form, grouped `8-4-4-4-12`.
pub const ENCODED_LENGTH: usize = 36;

/// Whether a position of the canonical text form holds a hyphen.
pub open spec fn hyphen_at(position: int) -> bool {
    position == 8 || position == 13 || position == 18 || position == 23
}

/// Where the hexadecimal digit of a half byte stands in the text form.
pub open spec fn place_of(half: int) -> int {
    if half < 8 {
        half
    } else if half < 12 {
        half + 1
    } else if half < 16 {
        half + 2
    } else if half < 20 {
        half + 3
    } else {
        half + 4
    }
}

/// Which half byte stands at a position of the text form.
pub open spec fn half_at(position: int) -> int {
    if position < 8 {
        position
    } else if position < 13 {
        position - 1
    } else if position < 18 {
        position - 2
    } else if position < 23 {
        position - 3
    } else {
        position - 4
    }
}

/// The lower-case hexadecimal digit of a value below sixteen.
pub open spec fn hex_digit(value: int) -> char {
    if value < 10 {
        ('0' as int + value) as char
    } else {
        ('a' as int + value - 10) as char
    }
}

/// Whether `c` is a lower-case hexadecimal digit.
pub open spec fn is_hex(c: char) -> bool {
    ('0' <= c && c <= '9') || ('a' <= c && c <= 'f')
}

/// The value of a lower-case hexadecimal digit.
pub open spec fn hex_value_of(c: char) -> int {
    if c <= '9' {
        c as int - '0' as int
    } else {
        c as int - 'a' as int + 10
    }
}

/// A half byte: the high half of a byte comes first.
pub open spec fn half_byte(bytes: Seq<u8>, half: int) -> int {
    if half % 2 == 0 {
        bytes[half / 2] as int / 16
    } else {
        bytes[half / 2] as int % 16
    }
}

/// The canonical text of sixteen bytes.
pub open spec fn encoded(bytes: Seq<u8>) -> Seq<char> {
    Seq::new(
        36,
        |position: int|
            if hyphen_at(position) {
                '-'
            } else {
                hex_digit(half_byte(bytes, half_at(position)))
            },
    )
}

/// Whether a character may stand at a position of the canonical text.
pub open spec fn fits_at(text: Seq<char>, position: int) -> bool {
    if hyphen_at(position) {
        text[position] == '-'
    } else {
        is_hex(text[position])
    }
}

/// Whether a text is the canonical text of some sixteen bytes.
pub open spec fn canonical(text: Seq<char>) -> bool {
    text.len() == 36 && forall|p: int| 0 <= p < 36 ==> #[trigger] fits_at(text, p)
}

/// The first character outside ASCII, at or after `at`.
pub open spec fn first_wide(text: Seq<char>, at: int) -> Option<char>
    decreases text.len() - at,
{
    if at >= text.len() {
        None
    } else if text[at] >= '\u{80}' {
        Some(text[at])
    } else {
        first_wide(text, at + 1)
    }
}

/// The first position, at or after `at`, whose character does not belong there.
pub open spec fn first_misfit(text: Seq<char>, at: int) -> Option<int>
    decreases text.len() - at,
{
    if at >= text.len() {
        None
    } else if !fits_at(text, at) {
        Some(at)
    } else {
        first_misfit(text, at + 1)
    }
}

/// What is wrong with the body of an identifier that is not canonical.
pub open spec fn body_fault(text: Seq<char>) -> IdError {
    if text.len() != 36 {
        IdError::WrongLength { expected: 36, found: text.len() as usize }
    } else if first_wide(text, 0) is Some {
        IdError::InvalidCharacter { found: first_wide(text, 0)->0 }
    } else {
        let position = first_misfit(text, 0)->0;
        if hyphen_at(position) || text[position] == '-' {
            IdError::MisplacedHyphen { position: position as usize }
        } else {
            IdError::InvalidCharacter { found: text[position] }
        }
    }
}

/// Different bytes have different texts.
pub proof fn encoded_injective(left: Seq<u8>, right: Seq<u8>)
    requires
        left.len() == 16,
        right.len() == 16,
        encoded(left) == encoded(right),
    ensures
        left == right,
{
    assert forall|i: int| 0 <= i < 16 implies left[i] == right[i] by {
        let high = place_of(2 * i);
        let low = place_of(2 * i + 1);
        assert(half_at(high) == 2 * i && !hyphen_at(high));
        assert(half_at(low) == 2 * i + 1 && !hyphen_at(low));
        assert(encoded(left)[high] == encoded(right)[high]);
        assert(encoded(left)[low] == encoded(right)[low]);
        assert((2 * i) / 2 == i && (2 * i + 1) / 2 == i);
        assert((2 * i) % 2 == 0 && (2 * i + 1) % 2 == 1);
        assert(half_byte(left, 2 * i) == left[i] as int / 16);
        assert(half_byte(right, 2 * i) == right[i] as int / 16);
        assert(half_byte(left, 2 * i + 1) == left[i] as int % 16);
        assert(half_byte(right, 2 * i + 1) == right[i] as int % 16);
        assert(hex_value_of(hex_digit(half_byte(left, 2 * i))) == half_byte(left, 2 * i));
        assert(hex_value_of(hex_digit(half_byte(right, 2 * i))) == half_byte(right, 2 * i));
        assert(hex_value_of(hex_digit(half_byte(left, 2 * i + 1))) == half_byte(left, 2 * i + 1));
        assert(hex_value_of(hex_digit(half_byte(right, 2 * i + 1))) == half_byte(right, 2 * i + 1));
        assert(encoded(left)[high] == hex_digit(half_byte(left, 2 * i)));
        assert(encoded(right)[high] == hex_digit(half_byte(right, 2 * i)));
        assert(encoded(left)[low] == hex_digit(half_byte(left, 2 * i + 1)));
        assert(encoded(right)[low] == hex_digit(half_byte(right, 2 * i + 1)));
        assert(left[i] as int == (left[i] as int / 16) * 16 + left[i] as int % 16);
        assert(right[i] as int == (right[i] as int / 16) * 16 + right[i] as int % 16);
    }
    assert(left =~= right);
}

/// The text of sixteen bytes is canonical.
pub proof fn encoded_canonical(bytes: Seq<u8>)
    requires
        bytes.len() == 16,
    ensures
        canonical(encoded(bytes)),
{
    assert forall|p: int| 0 <= p < 36 implies #[trigger] fits_at(encoded(bytes), p) by {
        let half = half_at(p);
        assert(0 <= half < 32 || hyphen_at(p));
        if !hyphen_at(p) {
            assert(0 <= half / 2 < 16);
            assert(0 <= half_byte(bytes, half) < 16);
        }
    }
}

fn nibble(value: u8) -> (digit: char)
    requires
        value < 16,
    ensures
        digit == hex_digit(value as int),
{
    if value < 10 {
        (48u8 + value) as char
    } else {
        (97u8 + (value - 10)) as char
    }
}

fn hex_value(character: char) -> (value: Option<u8>)
    ensures
        value == (if is_hex(character) {
            Some(hex_value_of(character) as u8)
        } else {
            None
        }),
        value matches Some(v) ==> v < 16 && v == hex_value_of(character),
{
    let code: u32 = character as u32;
    if character >= '0' && character <= '9' {
        Some((code - 48) as u8)
    } else if character >= 'a' && character <= 'f' {
        Some((code - 97 + 10) as u8)
    } else {
        None
    }
}

fn encode(bytes: &[u8; 16]) -> (text: String)
    ensures
        text@ == encoded(bytes@),
{
    let mut text = String::new();
    let mut index: usize = 0;
    while index < 16
        invariant
            index <= 16,
            text@ == encoded(bytes@).take(
                if index == 16 {
                    36
                } else {
                    place_of(2 * index) - (if hyphen_at(place_of(2 * index) - 1) {
                        1int
                    } else {
                        0
                    })
                },
            ),
        decreases 16 - index,
    {
        let ghost start = text@.len() as int;
        if index == 4 || index == 6 || index == 8 || index == 10 {
            text.push('-');
        }
        let byte: u8 = bytes[index];
        text.push(nibble(byte / 16));
        text.push(nibble(byte % 16));
        proof {
            assert(half_at(place_of(2 * index)) == 2 * index);
            assert(half_at(place_of(2 * index + 1)) == 2 * index + 1);
            assert((2 * index) / 2 == index && (2 * index + 1) / 2 == index);
            let next = if index == 15 {
                36
            } else {
                place_of(2 * (index + 1)) - (if hyphen_at(place_of(2 * (index + 1)) - 1) {
                    1int
                } else {
                    0
                })
            };
            assert(text@ =~= encoded(bytes@).take(next));
        }
        index = index + 1;
    }
    assert(text@ =~= encoded(bytes@));
    text
}

proof fn first_wide_none(text: Seq<char>, at: int)
    requires
        0 <= at <= text.len(),
        forall|i: int| at <= i < text.len() ==> #[trigger] text[i] < '\u{80}',
    ensures
        first_wide(text, at) is None,
    decreases text.len() - at,
{
    if at < text.len() {
        first_wide_none(text, at + 1);
    }
}

proof fn first_misfit_found(text: Seq<char>, at: int, position: int)
    requires
        0 <= at <= position < text.len(),
        forall|i: int| at <= i < position ==> #[trigger] fits_at(text, i),
        !fits_at(text, position),
    ensures
        first_misfit(text, at) == Some(position),
    decreases position - at,
{
    if at < position {
        assert(fits_at(text, at));
        first_misfit_found(text, at + 1, position);
    }
}

fn place(half: usize) -> (position: usize)
    requires
        half < 32,
    ensures
        position == place_of(half as int),
        position < 36,
{
    if half < 8 {
        half
    } else if half < 12 {
        half + 1
    } else if half < 16 {
        half + 2
    } else if half < 20 {
        half + 3
    } else {
        half + 4
    }
}

fn is_hyphen_at(position: usize) -> (answer: bool)
    ensures
        answer == hyphen_at(position as int),
{
    position == 8 || position == 13 || position == 18 || position == 23
}

/// Reads the body of an identifier: `characters[from..]`.
fn decode(characters: &Vec<char>, from: usize) -> (read: Result<[u8; 16], IdError>)
    requires
        from <= characters@.len(),
    ensures
        ({
            let body = characters@.subrange(from as int, characters@.len() as int);
            &&& read is Ok <==> canonical(body)
            &&& read matches Ok(bytes) ==> encoded(bytes@) == body
            &&& read matches Err(error) ==> error == body_fault(body)
        }),
{
    let ghost body = characters@.subrange(from as int, characters@.len() as int);
    if characters.len() - from != ENCODED_LENGTH {
        return Err(
            IdError::WrongLength { expected: ENCODED_LENGTH, found: characters.len() - from },
        );
    }
    let mut wide: usize = 0;
    while wide < ENCODED_LENGTH
        invariant
            wide <= 36,
            characters.len() == from + 36,
            body == characters@.subrange(from as int, characters@.len() as int),
            first_wide(body, 0) == first_wide(body, wide as int),
            forall|i: int| 0 <= i < wide ==> #[trigger] body[i] < '\u{80}',
        decreases 36 - wide,
    {
        let character: char = characters[from + wide];
        assert(character == body[wide as int]);
        if character >= '\u{80}' {
            assert(!fits_at(body, wide as int));
            return Err(IdError::InvalidCharacter { found: character });
        }
        wide = wide + 1;
    }
    let mut position: usize = 0;
    while position < ENCODED_LENGTH
        invariant
            position <= 36,
            characters.len() == from + 36,
            body == characters@.subrange(from as int, characters@.len() as int),
            first_wide(body, 0) is None,
            forall|i: int| 0 <= i < position ==> #[trigger] fits_at(body, i),
        decreases 36 - position,
    {
        let character: char = characters[from + position];
        assert(character == body[position as int]);
        if is_hyphen_at(position) {
            if character != '-' {
                proof {
                    assert(!fits_at(body, position as int));
                    first_misfit_found(body, 0, position as int);
                }
                return Err(IdError::MisplacedHyphen { position });
            }
        } else {
            if character == '-' {
                proof {
                    assert(!fits_at(body, position as int));
                    first_misfit_found(body, 0, position as int);
                }
                return Err(IdError::MisplacedHyphen { position });
            }
            if hex_value(character).is_none() {
                proof {
                    assert(!fits_at(body, position as int));
                    first_misfit_found(body, 0, position as int);
                }
                return Err(IdError::InvalidCharacter { found: character });
            }
        }
        position = position + 1;
    }
    let mut bytes: [u8; 16] = [0u8; 16];
    let mut index: usize = 0;
    while index < 16
        invariant
            index <= 16,
            characters.len() == from + 36,
            body == characters@.subrange(from as int, characters@.len() as int),
            canonical(body),
            forall|half: int|
                0 <= half < 2 * index ==> hex_digit(#[trigger] half_byte(bytes@, half))
                    == body[place_of(half)],
        decreases 16 - index,
    {
        let high: usize = place(2 * index);
        let low: usize = place(2 * index + 1);
        assert(!hyphen_at(high as int) && !hyphen_at(low as int));
        assert(fits_at(body, high as int) && fits_at(body, low as int));
        assert(body[high as int] == characters@[from + high]);
        assert(body[low as int] == characters@[from + low]);
        let first = hex_value(characters[from + high]);
        let second = hex_value(characters[from + low]);
        let (Some(a), Some(b)) = (first, second) else {
            assert(false);
            return Err(IdError::WrongLength { expected: 0, found: 0 });
        };
        let ghost before = bytes@;
        bytes[index] = a * 16 + b;
        proof {
            assert(bytes@ == before.update(index as int, (a * 16 + b) as u8));
            assert((a * 16 + b) / 16 == a && (a * 16 + b) % 16 == b);
            assert forall|half: int| 0 <= half < 2 * (index + 1) implies hex_digit(
                #[trigger] half_byte(bytes@, half),
            ) == body[place_of(half)] by {
                if half < 2 * index {
                    assert(half / 2 < index);
                    assert(half_byte(before, half) == half_byte(bytes@, half));
                } else {
                    assert(half / 2 == index);
                    assert(half == 2 * index || half == 2 * index + 1);
                }
            }
        }
        index = index + 1;
    }
    proof {
        assert forall|p: int| 0 <= p < 36 implies encoded(bytes@)[p] == body[p] by {
            assert(fits_at(body, p));
            if !hyphen_at(p) {
                let half = half_at(p);
                assert(place_of(half) == p);
                assert(hex_digit(half_byte(bytes@, half)) == body[place_of(half)]);
            }
        }
        assert(encoded(bytes@) =~= body);
    }
    Ok(bytes)
}

/// Why an identifier could not be read from text.
#[allow(inconsistent_fields)]
#[derive(Clone, Copy, Debug, PartialEq, Eq)]
pub enum IdError {
    /// The text did not start with the kind prefix this identifier requires.
    MissingPrefix {
        /// The prefix that was required.
        expected: &'static str,
    },
    /// The body was not 36 characters long.
    WrongLength {
        /// The required character count.
        expected: usize,
        /// The character count found.
        found: usize,
    },
    /// A hyphen was missing from, or present outside, the `8-4-4-4-12` positions.
    MisplacedHyphen {
        /// The offending position within the body.
        position: usize,
    },
    /// The body contained a character that is not a lower-case hexadecimal digit.
    InvalidCharacter {
        /// The offending character.
        found: char,
    },
}

/// What `char`'s `Debug` form of a character is.
pub uninterp spec fn debug_form(c: char) -> Seq<char>;

/// `<char as Debug>::fmt`, through `format!`: the quoted form of a character, with the
/// characters that are not printable escaped.
#[verifier::external_body]
pub(crate) fn show_debug(c: char) -> (text: String)
    ensures
        text@ == debug_form(c),
{
    format!("{c:?}")
}

impl IdError {
    /// The message this error is shown with.
    pub open spec fn spec_message(&self) -> Seq<char> {
        match self {
            IdError::MissingPrefix { expected } => "identifier must start with \""@ + expected@
                + "\""@,
            IdError::WrongLength { expected, found } => "identifier body must be "@ + digits_of(
                *expected as nat,
            ) + " characters, found "@ + digits_of(*found as nat),
            IdError::MisplacedHyphen { position } =>
                "identifier body must be grouped 8-4-4-4-12, but position "@ + digits_of(
                *position as nat,
            ) + " breaks it"@,
            IdError::InvalidCharacter { found } => "identifier body contains "@ + debug_form(*found)
                + ", which is not a lower-case hexadecimal digit"@,
        }
    }

    /// The message this error is shown with.
    pub fn message(&self) -> (text: String)
        ensures
            text@ == self.spec_message(),
    {
        let mut text: String;
        match self {
            IdError::MissingPrefix { expected } => {
                text = "identifier must start with \"".to_owned();
                text.append(expected);
                text.append("\"");
            }
            IdError::WrongLength { expected, found } => {
                text = "identifier body must be ".to_owned();
                write_digits(&mut text, *expected as u64);
                text.append(" characters, found ");
                write_digits(&mut text, *found as u64);
            }
            IdError::MisplacedHyphen { position } => {
                text = "identifier body must be grouped 8-4-4-4-12, but position ".to_owned();
                write_digits(&mut text, *position as u64);
                text.append(" breaks it");
            }
            IdError::InvalidCharacter { found } => {
                text = "identifier body contains ".to_owned();
                text.append(show_debug(*found).as_str());
                text.append(", which is not a lower-case hexadecimal digit");
            }
        }
        text
    }
}

/// Whether sixteen bytes come before sixteen others.
pub open spec fn bytes_precede(left: Seq<u8>, right: Seq<u8>) -> bool {
    exists|at: int|
        0 <= at < left.len() && at < right.len() && #[trigger] left[at] < right[at] && forall|i: int|
            0 <= i < at ==> left[i] == right[i]
}

fn bytes_before(left: &[u8; 16], right: &[u8; 16]) -> (answer: bool)
    ensures
        answer == bytes_precede(left@, right@),
{
    let mut at: usize = 0;
    while at < 16
        invariant
            at <= 16,
            forall|i: int| 0 <= i < at ==> left@[i] == right@[i],
        decreases 16 - at,
    {
        if left[at] != right[at] {
            let answer = left[at] < right[at];
            proof {
                if answer {
                    assert(left@[at as int] < right@[at as int]);
                } else {
                    assert forall|other: int|
                        0 <= other < 16 && #[trigger] left@[other] < right@[other] implies !(forall|
                        i: int,
                    |
                        0 <= i < other ==> left@[i] == right@[i]) by {
                        if other > at {
                            assert(left@[at as int] != right@[at as int]);
                        }
                    }
                }
            }
            return answer;
        }
        at = at + 1;
    }
    false
}

fn bytes_same(left: &[u8; 16], right: &[u8; 16]) -> (answer: bool)
    ensures
        answer == (left == right),
{
    let mut at: usize = 0;
    while at < 16
        invariant
            at <= 16,
            forall|i: int| 0 <= i < at ==> left[i] == right[i],
        decreases 16 - at,
    {
        if left[at] != right[at] {
            return false;
        }
        at = at + 1;
    }
    assert(left =~= right);
    true
}

/// No bytes precede themselves.
pub proof fn bytes_precede_irreflexive(bytes: Seq<u8>)
    ensures
        !bytes_precede(bytes, bytes),
{
}

/// The order of identifiers is transitive.
pub proof fn bytes_precede_transitive(a: Seq<u8>, b: Seq<u8>, c: Seq<u8>)
    requires
        bytes_precede(a, b),
        bytes_precede(b, c),
        a.len() == b.len() == c.len(),
    ensures
        bytes_precede(a, c),
{
    let i = choose|at: int|
        0 <= at < a.len() && at < b.len() && #[trigger] a[at] < b[at] && forall|i: int|
            0 <= i < at ==> a[i] == b[i];
    let j = choose|at: int|
        0 <= at < b.len() && at < c.len() && #[trigger] b[at] < c[at] && forall|i: int|
            0 <= i < at ==> b[i] == c[i];
    let at = if i < j {
        i
    } else {
        j
    };
    assert(a[at] < c[at]);
}

proof fn precede_total_from(a: Seq<u8>, b: Seq<u8>, at: int)
    requires
        a.len() == b.len(),
        0 <= at <= a.len(),
        forall|i: int| 0 <= i < at ==> a[i] == b[i],
    ensures
        a == b || bytes_precede(a, b) || bytes_precede(b, a),
    decreases a.len() - at,
{
    if at == a.len() {
        assert(a =~= b);
    } else if a[at] == b[at] {
        precede_total_from(a, b, at + 1);
    } else if a[at] < b[at] {
        assert(bytes_precede(a, b));
    } else {
        assert(b[at] < a[at]);
        assert(bytes_precede(b, a));
    }
}

/// Of two different identifiers one precedes the other.
pub proof fn bytes_precede_total(a: Seq<u8>, b: Seq<u8>)
    requires
        a.len() == b.len(),
    ensures
        a == b || bytes_precede(a, b) || bytes_precede(b, a),
{
    precede_total_from(a, b, 0);
}

/// An opaque persistent identifier for a Node within one database.
///
/// The textual form is `n_` followed by a UUID in canonical lower-case text.
#[derive(Clone, Copy, Debug, PartialEq, Eq, PartialOrd, Ord, Hash)]
pub struct LocalNodeId {
    bytes: [u8; 16],
}

impl View for LocalNodeId {
    type V = Seq<u8>;

    closed spec fn view(&self) -> Seq<u8> {
        self.bytes@
    }
}

impl LocalNodeId {
    /// The identifier with these bytes.
    pub open spec fn with_bytes(bytes: Seq<u8>) -> LocalNodeId {
        choose|id: LocalNodeId| id@ == bytes
    }

    /// The identifier with this textual form.
    pub open spec fn with_text(text: Seq<char>) -> LocalNodeId {
        choose|id: LocalNodeId| id.text() == text
    }

    /// An identifier is the one with its bytes, and the one with its textual form.
    pub proof fn is_found(self)
        ensures
            LocalNodeId::with_bytes(self@) == self,
            LocalNodeId::with_text(self.text()) == self,
    {
        let by_bytes = LocalNodeId::with_bytes(self@);
        assert(by_bytes@ == self@);
        Self::same_bytes(by_bytes, self);
        let by_text = LocalNodeId::with_text(self.text());
        assert(by_text.text() == self.text());
        self.text_reads_back(by_text);
    }

    /// Sixteen bytes are those of an identifier.
    pub proof fn bytes_are_found(bytes: Seq<u8>)
        requires
            bytes.len() == 16,
        ensures
            LocalNodeId::with_bytes(bytes)@ == bytes,
    {
        let array: [u8; 16] = [
            bytes[0],
            bytes[1],
            bytes[2],
            bytes[3],
            bytes[4],
            bytes[5],
            bytes[6],
            bytes[7],
            bytes[8],
            bytes[9],
            bytes[10],
            bytes[11],
            bytes[12],
            bytes[13],
            bytes[14],
            bytes[15],
        ];
        let id = LocalNodeId { bytes: array };
        assert(id@ =~= bytes);
    }

    /// The textual prefix marking a Node within one database.
    pub const PREFIX: &'static str = "n_";

    /// The textual form.
    pub open spec fn text(self) -> Seq<char> {
        seq!['n', '_'] + encoded(self@)
    }

    /// Whether a text starts with the prefix.
    pub open spec fn has_prefix(text: Seq<char>) -> bool {
        text.len() >= 2 && text[0] == 'n' && text[1] == '_'
    }

    /// Two identifiers with the same bytes are one identifier.
    pub proof fn same_bytes(left: Self, right: Self)
        requires
            left@ == right@,
        ensures
            left == right,
    {
        assert forall|i: int| 0 <= i < 16 implies left.bytes[i] == right.bytes[i] by {
            assert(left.bytes@[i] == right.bytes@[i]);
        }
        assert(left.bytes =~= right.bytes);
    }

    /// Sixteen bytes, always.
    pub broadcast proof fn length(self)
        ensures
            #[trigger] self@.len() == 16,
    {
    }

    /// Wraps sixteen opaque bytes.
    pub fn from_bytes(bytes: [u8; 16]) -> (made: Self)
        ensures
            made@ == bytes@,
    {
        LocalNodeId { bytes }
    }

    /// Borrows the opaque bytes.
    pub fn as_bytes(&self) -> (bytes: &[u8; 16])
        ensures
            bytes@ == self@,
    {
        &self.bytes
    }

    /// Copies out the opaque bytes.
    pub fn to_bytes(self) -> (bytes: [u8; 16])
        ensures
            bytes@ == self@,
    {
        self.bytes
    }

    /// Whether two identifiers are the same.
    pub fn same(&self, other: &Self) -> (answer: bool)
        ensures
            answer == (*self == *other),
            answer == (self@ == other@),
    {
        proof {
            if self@ == other@ {
                Self::same_bytes(*self, *other);
            }
        }
        bytes_same(&self.bytes, &other.bytes)
    }

    /// Whether this identifier comes before another in the order by bytes.
    pub fn is_before(&self, other: &Self) -> (answer: bool)
        ensures
            answer == bytes_precede(self@, other@),
    {
        bytes_before(&self.bytes, &other.bytes)
    }

    /// The textual form.
    pub fn to_string(&self) -> (text: String)
        ensures
            text@ == self.text(),
    {
        let mut text = String::new();
        text.push('n');
        text.push('_');
        text.append(encode(&self.bytes).as_str());
        assert(text@ =~= self.text());
        text
    }

    /// Reads the textual form.
    ///
    /// An identifier comes back exactly when `text` is the prefix followed by the
    /// canonical text of some bytes, and then its textual form is `text`.
    pub fn from_str(text: &str) -> (read: Result<Self, IdError>)
        ensures
            read is Ok <==> Self::has_prefix(text@) && canonical(text@.skip(2)),
            read matches Ok(id) ==> id.text() == text@,
            read matches Err(error) ==> if Self::has_prefix(text@) {
                error == body_fault(text@.skip(2))
            } else {
                error matches IdError::MissingPrefix { expected } && expected@ == "n_"@
            },
    {
        let all = characters(text);
        if all.len() < 2 || all[0] != 'n' || all[1] != '_' {
            return Err(IdError::MissingPrefix { expected: "n_" });
        }
        assert(all@.subrange(2, all@.len() as int) =~= text@.skip(2));
        match decode(&all, 2) {
            Err(error) => Err(error),
            Ok(bytes) => {
                let made = LocalNodeId { bytes };
                assert(made.text() =~= text@);
                Ok(made)
            }
        }
    }

    /// The textual form of an identifier is accepted, and only by its own kind: any
    /// identifier that has this text is this identifier.
    pub proof fn text_reads_back(self, other: Self)
        ensures
            Self::has_prefix(self.text()),
            canonical(self.text().skip(2)),
            other.text() == self.text() ==> other == self,
    {
        assert(self.text().skip(2) =~= encoded(self@));
        encoded_canonical(self@);
        if other.text() == self.text() {
            assert(other.text().skip(2) =~= encoded(other@));
            encoded_injective(self@, other@);
            Self::same_bytes(self, other);
        }
    }
}

/// An opaque persistent identifier for an Edge within one database.
///
/// The textual form is `e_` followed by a UUID in canonical lower-case text.
#[derive(Clone, Copy, Debug, PartialEq, Eq, PartialOrd, Ord, Hash)]
pub struct LocalEdgeId {
    bytes: [u8; 16],
}

impl View for LocalEdgeId {
    type V = Seq<u8>;

    closed spec fn view(&self) -> Seq<u8> {
        self.bytes@
    }
}

impl LocalEdgeId {
    /// The identifier with these bytes.
    pub open spec fn with_bytes(bytes: Seq<u8>) -> LocalEdgeId {
        choose|id: LocalEdgeId| id@ == bytes
    }

    /// The identifier with this textual form.
    pub open spec fn with_text(text: Seq<char>) -> LocalEdgeId {
        choose|id: LocalEdgeId| id.text() == text
    }

    /// An identifier is the one with its bytes, and the one with its textual form.
    pub proof fn is_found(self)
        ensures
            LocalEdgeId::with_bytes(self@) == self,
            LocalEdgeId::with_text(self.text()) == self,
    {
        let by_bytes = LocalEdgeId::with_bytes(self@);
        assert(by_bytes@ == self@);
        Self::same_bytes(by_bytes, self);
        let by_text = LocalEdgeId::with_text(self.text());
        assert(by_text.text() == self.text());
        self.text_reads_back(by_text);
    }

    /// Sixteen bytes are those of an identifier.
    pub proof fn bytes_are_found(bytes: Seq<u8>)
        requires
            bytes.len() == 16,
        ensures
            LocalEdgeId::with_bytes(bytes)@ == bytes,
    {
        let array: [u8; 16] = [
            bytes[0],
            bytes[1],
            bytes[2],
            bytes[3],
            bytes[4],
            bytes[5],
            bytes[6],
            bytes[7],
            bytes[8],
            bytes[9],
            bytes[10],
            bytes[11],
            bytes[12],
            bytes[13],
            bytes[14],
            bytes[15],
        ];
        let id = LocalEdgeId { bytes: array };
        assert(id@ =~= bytes);
    }

    /// The textual prefix marking an Edge within one database.
    pub const PREFIX: &'static str = "e_";

    /// The textual form.
    pub open spec fn text(self) -> Seq<char> {
        seq!['e', '_'] + encoded(self@)
    }

    /// Whether a text starts with the prefix.
    pub open spec fn has_prefix(text: Seq<char>) -> bool {
        text.len() >= 2 && text[0] == 'e' && text[1] == '_'
    }

    /// Two identifiers with the same bytes are one identifier.
    pub proof fn same_bytes(left: Self, right: Self)
        requires
            left@ == right@,
        ensures
            left == right,
    {
        assert forall|i: int| 0 <= i < 16 implies left.bytes[i] == right.bytes[i] by {
            assert(left.bytes@[i] == right.bytes@[i]);
        }
        assert(left.bytes =~= right.bytes);
    }

    /// Sixteen bytes, always.
    pub broadcast proof fn length(self)
        ensures
            #[trigger] self@.len() == 16,
    {
    }

    /// Wraps sixteen opaque bytes.
    pub fn from_bytes(bytes: [u8; 16]) -> (made: Self)
        ensures
            made@ == bytes@,
    {
        LocalEdgeId { bytes }
    }

    /// Borrows the opaque bytes.
    pub fn as_bytes(&self) -> (bytes: &[u8; 16])
        ensures
            bytes@ == self@,
    {
        &self.bytes
    }

    /// Copies out the opaque bytes.
    pub fn to_bytes(self) -> (bytes: [u8; 16])
        ensures
            bytes@ == self@,
    {
        self.bytes
    }

    /// Whether two identifiers are the same.
    pub fn same(&self, other: &Self) -> (answer: bool)
        ensures
            answer == (*self == *other),
            answer == (self@ == other@),
    {
        proof {
            if self@ == other@ {
                Self::same_bytes(*self, *other);
            }
        }
        bytes_same(&self.bytes, &other.bytes)
    }

    /// Whether this identifier comes before another in the order by bytes.
    pub fn is_before(&self, other: &Self) -> (answer: bool)
        ensures
            answer == bytes_precede(self@, other@),
    {
        bytes_before(&self.bytes, &other.bytes)
    }

    /// The textual form.
    pub fn to_string(&self) -> (text: String)
        ensures
            text@ == self.text(),
    {
        let mut text = String::new();
        text.push('e');
        text.push('_');
        text.append(encode(&self.bytes).as_str());
        assert(text@ =~= self.text());
        text
    }

    /// Reads the textual form.
    ///
    /// An identifier comes back exactly when `text` is the prefix followed by the
    /// canonical text of some bytes, and then its textual form is `text`.
    pub fn from_str(text: &str) -> (read: Result<Self, IdError>)
        ensures
            read is Ok <==> Self::has_prefix(text@) && canonical(text@.skip(2)),
            read matches Ok(id) ==> id.text() == text@,
            read matches Err(error) ==> if Self::has_prefix(text@) {
                error == body_fault(text@.skip(2))
            } else {
                error matches IdError::MissingPrefix { expected } && expected@ == "e_"@
            },
    {
        let all = characters(text);
        if all.len() < 2 || all[0] != 'e' || all[1] != '_' {
            return Err(IdError::MissingPrefix { expected: "e_" });
        }
        assert(all@.subrange(2, all@.len() as int) =~= text@.skip(2));
        match decode(&all, 2) {
            Err(error) => Err(error),
            Ok(bytes) => {
                let made = LocalEdgeId { bytes };
                assert(made.text() =~= text@);
                Ok(made)
            }
        }
    }

    /// The textual form of an identifier is accepted, and only by its own kind: any
    /// identifier that has this text is this identifier.
    pub proof fn text_reads_back(self, other: Self)
        ensures
            Self::has_prefix(self.text()),
            canonical(self.text().skip(2)),
            other.text() == self.text() ==> other == self,
    {
        assert(self.text().skip(2) =~= encoded(self@));
        encoded_canonical(self@);
        if other.text() == self.text() {
            assert(other.text().skip(2) =~= encoded(other@));
            encoded_injective(self@, other@);
            Self::same_bytes(self, other);
        }
    }
}

/// An opaque persistent identifier for a source unit that a contribution was derived from.
///
/// The textual form is `u_` followed by a UUID in canonical lower-case text.
#[derive(Clone, Copy, Debug, PartialEq, Eq, PartialOrd, Ord, Hash)]
pub struct SourceUnitId {
    bytes: [u8; 16],
}

impl View for SourceUnitId {
    type V = Seq<u8>;

    closed spec fn view(&self) -> Seq<u8> {
        self.bytes@
    }
}

impl SourceUnitId {
    /// The identifier with these bytes.
    pub open spec fn with_bytes(bytes: Seq<u8>) -> SourceUnitId {
        choose|id: SourceUnitId| id@ == bytes
    }

    /// The identifier with this textual form.
    pub open spec fn with_text(text: Seq<char>) -> SourceUnitId {
        choose|id: SourceUnitId| id.text() == text
    }

    /// An identifier is the one with its bytes, and the one with its textual form.
    pub proof fn is_found(self)
        ensures
            SourceUnitId::with_bytes(self@) == self,
            SourceUnitId::with_text(self.text()) == self,
    {
        let by_bytes = SourceUnitId::with_bytes(self@);
        assert(by_bytes@ == self@);
        Self::same_bytes(by_bytes, self);
        let by_text = SourceUnitId::with_text(self.text());
        assert(by_text.text() == self.text());
        self.text_reads_back(by_text);
    }

    /// The textual prefix marking a source unit that a contribution was derived from.
    pub const PREFIX: &'static str = "u_";

    /// The textual form.
    pub open spec fn text(self) -> Seq<char> {
        seq!['u', '_'] + encoded(self@)
    }

    /// Whether a text starts with the prefix.
    pub open spec fn has_prefix(text: Seq<char>) -> bool {
        text.len() >= 2 && text[0] == 'u' && text[1] == '_'
    }

    /// Two identifiers with the same bytes are one identifier.
    pub proof fn same_bytes(left: Self, right: Self)
        requires
            left@ == right@,
        ensures
            left == right,
    {
        assert forall|i: int| 0 <= i < 16 implies left.bytes[i] == right.bytes[i] by {
            assert(left.bytes@[i] == right.bytes@[i]);
        }
        assert(left.bytes =~= right.bytes);
    }

    /// Sixteen bytes, always.
    pub broadcast proof fn length(self)
        ensures
            #[trigger] self@.len() == 16,
    {
    }

    /// Wraps sixteen opaque bytes.
    pub fn from_bytes(bytes: [u8; 16]) -> (made: Self)
        ensures
            made@ == bytes@,
    {
        SourceUnitId { bytes }
    }

    /// Borrows the opaque bytes.
    pub fn as_bytes(&self) -> (bytes: &[u8; 16])
        ensures
            bytes@ == self@,
    {
        &self.bytes
    }

    /// Copies out the opaque bytes.
    pub fn to_bytes(self) -> (bytes: [u8; 16])
        ensures
            bytes@ == self@,
    {
        self.bytes
    }

    /// Whether two identifiers are the same.
    pub fn same(&self, other: &Self) -> (answer: bool)
        ensures
            answer == (*self == *other),
            answer == (self@ == other@),
    {
        proof {
            if self@ == other@ {
                Self::same_bytes(*self, *other);
            }
        }
        bytes_same(&self.bytes, &other.bytes)
    }

    /// Whether this identifier comes before another in the order by bytes.
    pub fn is_before(&self, other: &Self) -> (answer: bool)
        ensures
            answer == bytes_precede(self@, other@),
    {
        bytes_before(&self.bytes, &other.bytes)
    }

    /// The textual form.
    pub fn to_string(&self) -> (text: String)
        ensures
            text@ == self.text(),
    {
        let mut text = String::new();
        text.push('u');
        text.push('_');
        text.append(encode(&self.bytes).as_str());
        assert(text@ =~= self.text());
        text
    }

    /// Reads the textual form.
    ///
    /// An identifier comes back exactly when `text` is the prefix followed by the
    /// canonical text of some bytes, and then its textual form is `text`.
    pub fn from_str(text: &str) -> (read: Result<Self, IdError>)
        ensures
            read is Ok <==> Self::has_prefix(text@) && canonical(text@.skip(2)),
            read matches Ok(id) ==> id.text() == text@,
            read matches Err(error) ==> if Self::has_prefix(text@) {
                error == body_fault(text@.skip(2))
            } else {
                error matches IdError::MissingPrefix { expected } && expected@ == "u_"@
            },
    {
        let all = characters(text);
        if all.len() < 2 || all[0] != 'u' || all[1] != '_' {
            return Err(IdError::MissingPrefix { expected: "u_" });
        }
        assert(all@.subrange(2, all@.len() as int) =~= text@.skip(2));
        match decode(&all, 2) {
            Err(error) => Err(error),
            Ok(bytes) => {
                let made = SourceUnitId { bytes };
                assert(made.text() =~= text@);
                Ok(made)
            }
        }
    }

    /// The textual form of an identifier is accepted, and only by its own kind: any
    /// identifier that has this text is this identifier.
    pub proof fn text_reads_back(self, other: Self)
        ensures
            Self::has_prefix(self.text()),
            canonical(self.text().skip(2)),
            other.text() == self.text() ==> other == self,
    {
        assert(self.text().skip(2) =~= encoded(self@));
        encoded_canonical(self@);
        if other.text() == self.text() {
            assert(other.text().skip(2) =~= encoded(other@));
            encoded_injective(self@, other@);
            Self::same_bytes(self, other);
        }
    }
}

impl SourceUnitId {
    /// The source unit a change made outside any analyzed source belongs to.
    ///
    /// A query is not an analyzed source, so a record it creates derives from no source
    /// unit. These are the all-zero bytes, which is exactly the nil UUID. A minted
    /// version 7 value carries 7 in its version half byte, so it never equals this one.
    pub fn query() -> (unit: SourceUnitId)
        ensures
            unit.is_query(),
    {
        let unit = SourceUnitId { bytes: [0u8; 16] };
        assert(unit@ =~= Seq::new(16, |i: int| 0u8));
        unit
    }

    /// Whether this is the source unit of a change made outside any analyzed source.
    pub open spec fn is_query(self) -> bool {
        self@ == Seq::new(16, |i: int| 0u8)
    }

    /// There is one query unit.
    pub proof fn one_query_unit(left: SourceUnitId, right: SourceUnitId)
        requires
            left.is_query(),
            right.is_query(),
        ensures
            left == right,
    {
        SourceUnitId::same_bytes(left, right);
    }
}

/// How a [`Minter`] chooses each value.
#[derive(Clone, Debug, PartialEq, Eq)]
enum Strategy {
    /// A UUID version 7: a millisecond timestamp followed by random bits.
    UuidV7,
    /// A generation and a counter, so a test can assert an exact value.
    Sequential { generation: u64, sequence: u64 },
}

/// Assigns identifiers to records a transaction creates.
///
/// Both strategies produce a value that a caller passes through its own in-use check.
#[derive(Clone, Debug, PartialEq, Eq)]
pub struct Minter {
    strategy: Strategy,
    issued: u64,
}

/// The eight bytes of a number, the most significant first.
pub open spec fn big_endian(number: u64) -> Seq<u8> {
    seq![
        (number >> 56) as u8,
        (number >> 48) as u8,
        (number >> 40) as u8,
        (number >> 32) as u8,
        (number >> 24) as u8,
        (number >> 16) as u8,
        (number >> 8) as u8,
        number as u8,
    ]
}

/// Different numbers have different bytes.
pub proof fn big_endian_injective(left: u64, right: u64)
    requires
        big_endian(left) == big_endian(right),
    ensures
        left == right,
{
    let a = big_endian(left);
    let b = big_endian(right);
    assert(a[0] == b[0] && a[1] == b[1] && a[2] == b[2] && a[3] == b[3]);
    assert(a[4] == b[4] && a[5] == b[5] && a[6] == b[6] && a[7] == b[7]);
    assert(left == right) by (bit_vector)
        requires
            (left >> 56) as u8 == (right >> 56) as u8,
            (left >> 48) as u8 == (right >> 48) as u8,
            (left >> 40) as u8 == (right >> 40) as u8,
            (left >> 32) as u8 == (right >> 32) as u8,
            (left >> 24) as u8 == (right >> 24) as u8,
            (left >> 16) as u8 == (right >> 16) as u8,
            (left >> 8) as u8 == (right >> 8) as u8,
            left as u8 == right as u8,
    ;
}

/// Whether bytes carry version 7 and the RFC 9562 variant.
pub open spec fn version_seven(bytes: Seq<u8>) -> bool {
    bytes.len() == 16 && bytes[6] as int / 16 == 7 && bytes[8] as int / 64 == 2
}

/// `uuid::Uuid::now_v7`: a version 7 UUID made of the current time and random bits.
///
/// The bytes rest on the clock and on chance. What holds of every outcome is stated: the
/// version half byte is 7 and the two variant bits are `10`. That two calls differ is not
/// stated, because a contract speaks of one call. The call panics where the clock stands
/// before the Unix epoch or the system yields no random bytes.
#[verifier::external_body]
fn fresh_uuid() -> (bytes: [u8; 16])
    ensures
        version_seven(bytes@),
{
    uuid::Uuid::now_v7().into_bytes()
}

/// A counter that has been moved on so far, and is moved on once more.
proof fn counts_on(sequence: u64, moved: int)
    ensures
        ((sequence + moved + 1) % 0x1_0000_0000_0000_0000) == ({
            let at = (sequence + moved) % 0x1_0000_0000_0000_0000;
            if at == u64::MAX {
                0
            } else {
                at + 1
            }
        }),
{
}

impl Minter {
    /// The generation and the next counter of a sequential minter.
    pub closed spec fn counter(&self) -> Option<(u64, u64)> {
        match self.strategy {
            Strategy::UuidV7 => None,
            Strategy::Sequential { generation, sequence } => Some((generation, sequence)),
        }
    }

    /// How many identifiers this minter has issued.
    pub closed spec fn count(&self) -> u64 {
        self.issued
    }

    /// What one issued value says about the minter before and after it.
    pub open spec fn issues(before: Minter, after: Minter, bytes: Seq<u8>) -> bool {
        &&& after.count() == (if before.count() == u64::MAX {
            0
        } else {
            (before.count() + 1) as u64
        })
        &&& match before.counter() {
            None => after.counter() is None && version_seven(bytes),
            Some((generation, sequence)) => {
                &&& bytes == big_endian(generation) + big_endian(sequence)
                &&& after.counter() == Some(
                    (
                        generation,
                        if sequence == u64::MAX {
                            0u64
                        } else {
                            (sequence + 1) as u64
                        },
                    ),
                )
            },
        }
    }

    /// What several issued values say about the minter before and after them.
    pub open spec fn issued_all(before: Minter, after: Minter, minted: Seq<Seq<u8>>) -> bool {
        &&& after.count() == ((before.count() + minted.len()) % 0x1_0000_0000_0000_0000) as u64
        &&& match before.counter() {
            None => after.counter() is None && forall|i: int|
                0 <= i < minted.len() ==> version_seven(#[trigger] minted[i]),
            Some((generation, sequence)) => {
                &&& after.counter() == Some(
                    (
                        generation,
                        ((sequence + minted.len()) % 0x1_0000_0000_0000_0000) as u64,
                    ),
                )
                &&& forall|i: int|
                    0 <= i < minted.len() ==> #[trigger] minted[i] == big_endian(generation)
                        + big_endian(((sequence + i) % 0x1_0000_0000_0000_0000) as u64)
            },
        }
    }

    /// A minter that issues nothing stays as it is.
    pub proof fn issued_none(minter: Minter)
        ensures
            Minter::issued_all(minter, minter, Seq::empty()),
    {
    }

    /// One more issued value.
    #[verifier::spinoff_prover]
    #[verifier::rlimit(60)]
    pub proof fn issued_one_more(
        before: Minter,
        middle: Minter,
        after: Minter,
        minted: Seq<Seq<u8>>,
        bytes: Seq<u8>,
    )
        requires
            Minter::issued_all(before, middle, minted),
            Minter::issues(middle, after, bytes),
        ensures
            Minter::issued_all(before, after, minted.push(bytes)),
    {
        let more = minted.push(bytes);
        assert forall|i: int| 0 <= i < more.len() implies more[i] == (if i < minted.len() {
            minted[i]
        } else {
            bytes
        }) by {}
        match before.counter() {
            None => {},
            Some((generation, sequence)) => {
                counts_on(sequence, minted.len() as int);
            },
        }
    }

    /// A sequential minter's next two values differ.
    pub proof fn sequential_values_differ(
        first: Minter,
        second: Minter,
        third: Minter,
        one: Seq<u8>,
        two: Seq<u8>,
    )
        requires
            first.counter() is Some,
            Minter::issues(first, second, one),
            Minter::issues(second, third, two),
        ensures
            one != two,
    {
        if one == two {
            let a = first.counter()->0;
            let b = second.counter()->0;
            assert(one.skip(8) =~= big_endian(a.1));
            assert(two.skip(8) =~= big_endian(b.1));
            big_endian_injective(a.1, b.1);
        }
    }

    /// What a sequential minter issues differs, as far as its counter reaches.
    pub proof fn sequential_issues_differ(
        before: Minter,
        after: Minter,
        minted: Seq<Seq<u8>>,
        i: int,
        j: int,
    )
        requires
            before.counter() is Some,
            Minter::issued_all(before, after, minted),
            0 <= i < j < minted.len(),
            j - i <= u64::MAX,
        ensures
            minted[i] != minted[j],
    {
        let (generation, sequence) = before.counter()->0;
        let a = ((sequence + i) % 0x1_0000_0000_0000_0000) as u64;
        let b = ((sequence + j) % 0x1_0000_0000_0000_0000) as u64;
        if minted[i] == minted[j] {
            assert(minted[i] == big_endian(generation) + big_endian(a));
            assert(minted[j] == big_endian(generation) + big_endian(b));
            assert(minted[i].skip(8) =~= big_endian(a));
            assert(minted[j].skip(8) =~= big_endian(b));
            big_endian_injective(a, b);
        }
    }

    /// A minter that does not count never issues the bytes of the query source unit.
    pub proof fn minted_is_not_query(before: Minter, after: Minter, bytes: Seq<u8>)
        requires
            before.counter() is None,
            Minter::issues(before, after, bytes),
        ensures
            bytes != Seq::new(16, |i: int| 0u8),
    {
        assert(bytes[6] != 0u8);
    }

    /// A minter that issues a UUID version 7 for each record.
    pub fn new() -> (made: Self)
        ensures
            made.counter() is None,
            made.count() == 0,
    {
        Minter { strategy: Strategy::UuidV7, issued: 0 }
    }

    /// A minter that derives each value from `generation` and a counter.
    ///
    /// This exists so a test can assert an exact identifier: two databases at the same
    /// generation would mint the same values.
    pub fn sequential(generation: u64) -> (made: Self)
        ensures
            made.counter() == Some((generation, 0u64)),
            made.count() == 0,
    {
        Minter { strategy: Strategy::Sequential { generation, sequence: 0 }, issued: 0 }
    }

    fn next_bytes(&mut self) -> (bytes: [u8; 16])
        ensures
            Minter::issues(*old(self), *final(self), bytes@),
    {
        let issued = self.issued.wrapping_add(1);
        match self.strategy {
            Strategy::UuidV7 => {
                self.issued = issued;
                fresh_uuid()
            }
            Strategy::Sequential { generation, sequence } => {
                let bytes: [u8; 16] = [
                    (generation >> 56) as u8,
                    (generation >> 48) as u8,
                    (generation >> 40) as u8,
                    (generation >> 32) as u8,
                    (generation >> 24) as u8,
                    (generation >> 16) as u8,
                    (generation >> 8) as u8,
                    generation as u8,
                    (sequence >> 56) as u8,
                    (sequence >> 48) as u8,
                    (sequence >> 40) as u8,
                    (sequence >> 32) as u8,
                    (sequence >> 24) as u8,
                    (sequence >> 16) as u8,
                    (sequence >> 8) as u8,
                    sequence as u8,
                ];
                assert(bytes@ =~= big_endian(generation) + big_endian(sequence));
                self.strategy = Strategy::Sequential {
                    generation,
                    sequence: sequence.wrapping_add(1),
                };
                self.issued = issued;
                bytes
            }
        }
    }

    /// The next Node identifier.
    pub fn node(&mut self) -> (id: LocalNodeId)
        ensures
            Minter::issues(*old(self), *final(self), id@),
    {
        let bytes = self.next_bytes();
        LocalNodeId::from_bytes(bytes)
    }

    /// The next Edge identifier.
    pub fn edge(&mut self) -> (id: LocalEdgeId)
        ensures
            Minter::issues(*old(self), *final(self), id@),
    {
        let bytes = self.next_bytes();
        LocalEdgeId::from_bytes(bytes)
    }

    /// How many identifiers this minter has issued.
    pub fn issued(&self) -> (count: u64)
        ensures
            count == self.count(),
    {
        self.issued
    }
}

impl Default for Minter {
    fn default() -> (made: Self)
        ensures
            made.counter() is None,
            made.count() == 0,
    {
        Minter::new()
    }
}

} // verus!
