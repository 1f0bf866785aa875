//! Character classes.

use vstd::prelude::*;

verus! {

/// What `unicode_ident::is_xid_start` answers for a character beyond ASCII.
pub uninterp spec fn wide_start(c: char) -> bool;

/// What `unicode_ident::is_xid_continue` answers for a character beyond ASCII.
pub uninterp spec fn wide_continue(c: char) -> bool;

/// Whether `c` is an ASCII letter.
pub open spec fn ascii_letter(c: char) -> bool {
    ('a' <= c && c <= 'z') || ('A' <= c && c <= 'Z')
}

/// Whether `c` is an ASCII digit.
pub open spec fn ascii_digit(c: char) -> bool {
    '0' <= c && c <= '9'
}

/// Whether `c` has the Unicode property `XID_Start`. Of the ASCII characters exactly the
/// letters have it, and no white space does.
pub open spec fn xid_start(c: char) -> bool {
    if c >= '\u{80}' {
        wide_start(c) && !white_space(c)
    } else {
        ascii_letter(c)
    }
}

/// Whether `c` has the Unicode property `XID_Continue`. Of the ASCII characters exactly the
/// letters, the digits and `_` have it.
pub open spec fn xid_continue(c: char) -> bool {
    if c >= '\u{80}' {
        wide_continue(c)
    } else {
        ascii_letter(c) || ascii_digit(c) || c == '_'
    }
}

/// `unicode_ident::is_xid_start`: whether the character has the Unicode property
/// `XID_Start`. Of the ASCII characters exactly the letters have it; beyond ASCII the
/// answer goes by the character alone.
#[verifier::external_body]
pub(crate) fn is_xid_start(c: char) -> (answer: bool)
    ensures
        c < '\u{80}' ==> answer == ascii_letter(c),
        c >= '\u{80}' ==> answer == wide_start(c),
{
    unicode_ident::is_xid_start(c)
}

/// `unicode_ident::is_xid_continue`: whether the character has the Unicode property
/// `XID_Continue`. Of the ASCII characters exactly the letters, the digits and `_` have it;
/// beyond ASCII the answer goes by the character alone.
#[verifier::external_body]
pub(crate) fn is_xid_continue(c: char) -> (answer: bool)
    ensures
        c < '\u{80}' ==> answer == (ascii_letter(c) || ascii_digit(c) || c == '_'),
        c >= '\u{80}' ==> answer == wide_continue(c),
{
    unicode_ident::is_xid_continue(c)
}

/// Whether `c` is white space: the Unicode property `White_Space`.
pub open spec fn white_space(c: char) -> bool {
    ||| '\u{9}' <= c && c <= '\u{d}'
    ||| c == ' '
    ||| c == '\u{85}'
    ||| c == '\u{a0}'
    ||| c == '\u{1680}'
    ||| '\u{2000}' <= c && c <= '\u{200a}'
    ||| c == '\u{2028}'
    ||| c == '\u{2029}'
    ||| c == '\u{202f}'
    ||| c == '\u{205f}'
    ||| c == '\u{3000}'
}

/// Whether `c` is white space.
pub fn is_white_space(c: char) -> (answer: bool)
    ensures
        answer == white_space(c),
{
    (c >= '\u{9}' && c <= '\u{d}') || c == ' ' || c == '\u{85}' || c == '\u{a0}' || c == '\u{1680}'
        || (c >= '\u{2000}' && c <= '\u{200a}') || c == '\u{2028}' || c == '\u{2029}' || c
        == '\u{202f}' || c == '\u{205f}' || c == '\u{3000}'
}

/// Whether `c` can start a name, white space being told apart here.
pub(crate) fn starts_name(c: char) -> (answer: bool)
    ensures
        answer == xid_start(c),
{
    is_xid_start(c) && !is_white_space(c)
}

/// Whether `c` is a control character: the Unicode general category `Cc`.
pub open spec fn control(c: char) -> bool {
    c < ' ' || ('\u{7f}' <= c && c <= '\u{9f}')
}

/// Whether `c` is a control character.
pub fn is_control(c: char) -> (answer: bool)
    ensures
        answer == control(c),
{
    c < ' ' || (c >= '\u{7f}' && c <= '\u{9f}')
}

/// Where the leading white space of `text[from..to]` ends.
pub open spec fn space_end(text: Seq<char>, from: int, to: int) -> int
    decreases to - from,
{
    if from < to && white_space(text[from]) {
        space_end(text, from + 1, to)
    } else {
        from
    }
}

/// Where the trailing white space of `text[from..to]` begins.
pub open spec fn space_start(text: Seq<char>, from: int, to: int) -> int
    decreases to - from,
{
    if from < to && white_space(text[to - 1]) {
        space_start(text, from, to - 1)
    } else {
        to
    }
}

/// `text` without the white space at both ends.
pub open spec fn trimmed(text: Seq<char>) -> Seq<char> {
    let from = space_end(text, 0, text.len() as int);
    text.subrange(from, space_start(text, from, text.len() as int))
}

/// The bounds of the white space at both ends keep their order.
pub proof fn space_bounds(text: Seq<char>, from: int, to: int)
    requires
        0 <= from <= to <= text.len(),
    ensures
        from <= space_end(text, from, to) <= to,
        from <= space_start(text, from, to) <= to,
    decreases to - from,
{
    if from < to {
        if white_space(text[from]) {
            space_bounds(text, from + 1, to);
        }
        if white_space(text[to - 1]) {
            space_bounds(text, from, to - 1);
        }
    }
}

/// The bounds of `text` without the white space at both ends.
pub fn trim_bounds(text: &Vec<char>) -> (bounds: (usize, usize))
    ensures
        bounds.0 <= bounds.1 <= text@.len(),
        text@.subrange(bounds.0 as int, bounds.1 as int) == trimmed(text@),
        bounds.0 == space_end(text@, 0, text@.len() as int),
        bounds.1 == space_start(text@, bounds.0 as int, text@.len() as int),
{
    let mut from: usize = 0;
    while from < text.len() && is_white_space(text[from])
        invariant
            from <= text@.len(),
            space_end(text@, 0, text@.len() as int) == space_end(
                text@,
                from as int,
                text@.len() as int,
            ),
        decreases text@.len() - from,
    {
        from = from + 1;
    }
    let mut to: usize = text.len();
    while to > from && is_white_space(text[to - 1])
        invariant
            from <= to <= text@.len(),
            space_start(text@, from as int, text@.len() as int) == space_start(
                text@,
                from as int,
                to as int,
            ),
        decreases to,
    {
        to = to - 1;
    }
    (from, to)
}

} // verus!
