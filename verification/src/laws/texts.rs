//! Which texts are timestamps, names, locators, digests and owners.

use crate::contribution::kind_of_name;
use crate::contribution::OwnerKind;
use crate::diagnostic::DiagnosticCode;
use crate::diagnostic::Severity;
use crate::evidence::algorithm_char;
use crate::evidence::algorithm_end;
use crate::evidence::digest_char;
use crate::evidence::range_fault;
use crate::evidence::valid_digest;
use crate::evidence::RangeError;
use crate::evidence::SourcePosition;
use crate::locator::first_control;
use crate::locator::is_scheme;
use crate::locator::locator_fault;
use crate::locator::scheme_end;
use crate::locator::scheme_of;
use crate::name::first_break;
use crate::name::name_fault;
use crate::name::reserved;
use crate::property::two_digits;
use crate::property::valid_datetime;
use crate::unicode::control;
use crate::unicode::space_end;
use crate::unicode::space_start;
use crate::unicode::white_space;
use crate::unicode::xid_continue;
use crate::unicode::xid_start;
use vstd::prelude::*;

verus! {

// -- Timestamps --------------------------------------------------------------------

/// Whether two digits spell a number.
pub open spec fn spells(text: Seq<char>, at: int, number: int) -> bool {
    &&& 0 <= number < 100
    &&& text[at] as int == 48 + number / 10
    &&& text[at + 1] as int == 48 + number % 10
}

/// Whether there is such a day: every month has a twenty-eighth, all but February a thirtieth,
/// and every other month up to July and from August on a thirty-first. February has a
/// twenty-ninth in every fourth year, but not in a full century unless four divides it.
pub open spec fn is_day(year: int, month: int, day: int) -> bool {
    &&& 1 <= month <= 12
    &&& 1 <= day <= 31
    &&& day == 29 && month == 2 ==> year % 4 == 0 && (year % 100 != 0 || year % 400 == 0)
    &&& day == 30 ==> month != 2
    &&& day == 31 ==> month == 1 || month == 3 || month == 5 || month == 7 || month == 8 || month
        == 10 || month == 12
}

/// A text that spells a date and a time is a timestamp exactly where there is such a day and
/// such a time. A minute may have a sixty-first second.
pub proof fn a_timestamp_names_a_moment(
    text: Seq<char>,
    century: int,
    year: int,
    month: int,
    day: int,
    hour: int,
    minute: int,
    second: int,
)
    requires
        text.len() == 20,
        spells(text, 0, century),
        spells(text, 2, year),
        text[4] == '-',
        spells(text, 5, month),
        text[7] == '-',
        spells(text, 8, day),
        text[10] == 'T',
        spells(text, 11, hour),
        text[13] == ':',
        spells(text, 14, minute),
        text[16] == ':',
        spells(text, 17, second),
        text[19] == 'Z',
    ensures
        valid_datetime(text) <==> is_day(century * 100 + year, month, day) && hour <= 23 && minute
            <= 59 && second <= 60,
{
    assert(two_digits(text, 0) == Some(century));
    assert(two_digits(text, 2) == Some(year));
    assert(two_digits(text, 5) == Some(month));
    assert(two_digits(text, 8) == Some(day));
    assert(two_digits(text, 11) == Some(hour));
    assert(two_digits(text, 14) == Some(minute));
    assert(two_digits(text, 17) == Some(second));
}

// -- Names -------------------------------------------------------------------------

proof fn the_first_break_is_found(text: Seq<char>, at: int)
    requires
        0 <= at,
    ensures
        first_break(text, at) is None <==> forall|i: int|
            at <= i < text.len() ==> xid_continue(#[trigger] text[i]),
        first_break(text, at) matches Some(c) ==> !xid_continue(c) && exists|i: int|
            at <= i < text.len() && #[trigger] text[i] == c,
    decreases text.len() - at,
{
    if at < text.len() {
        if xid_continue(text[at]) {
            the_first_break_is_found(text, at + 1);
        } else {
            assert(text[at] == text[at]);
        }
    }
}

/// A text is a name exactly where it starts with a character that can start an identifier or
/// with an underscore, goes on with characters that can continue one, and is no reserved word.
pub proof fn a_name_is_an_identifier(text: Seq<char>)
    ensures
        name_fault(text) is None <==> {
            &&& text.len() > 0
            &&& xid_start(text[0]) || text[0] == '_'
            &&& forall|i: int| 1 <= i < text.len() ==> xid_continue(#[trigger] text[i])
            &&& !reserved(text)
        },
        reserved(text) <==> text == "as"@ || text == "bytes"@ || text == "datetime"@ || text
            == "edge"@ || text == "false"@ || text == "node"@ || text == "schema"@ || text
            == "true"@,
{
    the_first_break_is_found(text, 1);
}

// -- Locators ----------------------------------------------------------------------

proof fn the_first_control_is_found(text: Seq<char>, at: int)
    requires
        0 <= at,
    ensures
        first_control(text, at) is None <==> forall|i: int|
            at <= i < text.len() ==> !control(#[trigger] text[i]),
    decreases text.len() - at,
{
    if at < text.len() && !control(text[at]) {
        the_first_control_is_found(text, at + 1);
    }
}

/// What is trimmed has no white space around it, and only white space went: a text without any
/// around it stays.
pub proof fn trimming_takes_white_space_alone(text: Seq<char>)
    ensures
        text.len() > 0 && !white_space(text[0]) && !white_space(text.last())
            ==> crate::unicode::trimmed(text) == text,
        ({
            let kept = crate::unicode::trimmed(text);
            kept.len() > 0 ==> !white_space(kept[0]) && !white_space(kept.last())
        }),
        (forall|i: int| 0 <= i < text.len() ==> white_space(#[trigger] text[i])) <==> crate::unicode::trimmed(
            text,
        ).len() == 0,
{
    let n = text.len() as int;
    white_space_ends(text, 0, n);
    let from = space_end(text, 0, n);
    white_space_starts(text, from, n);
    let to = space_start(text, from, n);
    if text.len() > 0 && !white_space(text[0]) && !white_space(text.last()) {
        assert(text.subrange(0, n) =~= text);
    }
    if from < to {
        let kept = text.subrange(from, to);
        assert(kept[0] == text[from]);
        assert(kept.last() == text[to - 1]);
    }
}

proof fn white_space_ends(text: Seq<char>, from: int, to: int)
    requires
        0 <= from <= to <= text.len(),
    ensures
        from <= space_end(text, from, to) <= to,
        forall|i: int| from <= i < space_end(text, from, to) ==> white_space(#[trigger] text[i]),
        space_end(text, from, to) < to ==> !white_space(text[space_end(text, from, to)]),
    decreases to - from,
{
    if from < to && white_space(text[from]) {
        white_space_ends(text, from + 1, to);
    }
}

proof fn white_space_starts(text: Seq<char>, from: int, to: int)
    requires
        0 <= from <= to <= text.len(),
    ensures
        from <= space_start(text, from, to) <= to,
        forall|i: int| space_start(text, from, to) <= i < to ==> white_space(#[trigger] text[i]),
        from < space_start(text, from, to) ==> !white_space(text[space_start(text, from, to) - 1]),
    decreases to - from,
{
    if from < to && white_space(text[to - 1]) {
        white_space_starts(text, from, to - 1);
    }
}

/// A locator is any text that is not empty, has no white space around it, and no control
/// character in it.
pub proof fn a_locator_is_a_trimmed_text(text: Seq<char>)
    ensures
        locator_fault(text) is None <==> text.len() > 0 && crate::unicode::trimmed(text) == text && forall|
            i: int,
        |
            0 <= i < text.len() ==> !control(#[trigger] text[i]),
{
    the_first_control_is_found(text, 0);
}

/// Whether a scheme ends at a place.
pub open spec fn marks_a_scheme(text: Seq<char>, at: int) -> bool {
    at + 3 <= text.len() && text[at] == ':' && text[at + 1] == '/' && text[at + 2] == '/'
}

proof fn the_first_mark_is_found(text: Seq<char>, at: int)
    requires
        0 <= at,
    ensures
        match scheme_end(text, at) {
            Some(end) => at <= end && marks_a_scheme(text, end) && forall|i: int|
                at <= i < end ==> !#[trigger] marks_a_scheme(text, i),
            None => forall|i: int| at <= i ==> !#[trigger] marks_a_scheme(text, i),
        },
    decreases text.len() - at,
{
    if at + 3 <= text.len() && !marks_a_scheme(text, at) {
        the_first_mark_is_found(text, at + 1);
    }
}

/// The scheme of a locator is what stands before the first `://`, where that is one: a letter,
/// and then letters, digits, `+`, `-` and `.`.
pub proof fn a_scheme_stands_before_the_mark(text: Seq<char>, scheme: Seq<char>, rest: Seq<char>)
    ensures
        is_scheme(scheme) ==> scheme_of(scheme + seq![':', '/', '/'] + rest) == Some(scheme),
        scheme_of(text) matches Some(found) ==> is_scheme(found) && found.len() + 3 <= text.len()
            && text.take(found.len() as int) == found && marks_a_scheme(text, found.len() as int),
{
    the_first_mark_is_found(text, 0);
    if is_scheme(scheme) {
        let whole = scheme + seq![':', '/', '/'] + rest;
        let n = scheme.len() as int;
        the_first_mark_is_found(whole, 0);
        assert(whole[n] == ':' && whole[n + 1] == '/' && whole[n + 2] == '/');
        assert(marks_a_scheme(whole, n));
        let end = scheme_end(whole, 0)->0;
        if end < n {
            assert(whole[end] == scheme[end]);
            assert(crate::locator::scheme_char(scheme[end]));
        }
        if n < end {
            assert(!marks_a_scheme(whole, n));
        }
        assert(whole.take(n) =~= scheme);
    }
}

// -- Digests -----------------------------------------------------------------------

proof fn an_algorithm_ends_where_it_does(name: Seq<char>, text: Seq<char>, at: int)
    requires
        0 <= at <= name.len() < text.len(),
        forall|i: int| 0 <= i < name.len() ==> algorithm_char(#[trigger] name[i]),
        forall|i: int| 0 <= i < name.len() ==> text[i] == #[trigger] name[i],
        !algorithm_char(text[name.len() as int]),
    ensures
        algorithm_end(text, at) == name.len(),
    decreases name.len() - at,
{
    if at < name.len() {
        assert(text[at] == name[at]);
        an_algorithm_ends_where_it_does(name, text, at + 1);
    }
}

/// An algorithm of lower-case letters and digits, a colon and lower-case hexadecimal digits are
/// a digest, and other digits are none.
pub proof fn a_digest_is_hexadecimal(name: Seq<char>, digits: Seq<char>)
    requires
        name.len() > 0,
        forall|i: int|
            0 <= i < name.len() ==> ('a' <= (#[trigger] name[i]) && name[i] <= 'z') || ('0'
                <= name[i] && name[i] <= '9'),
    ensures
        valid_digest(name + seq![':'] + digits) <==> digits.len() > 0 && forall|i: int|
            0 <= i < digits.len() ==> ('0' <= (#[trigger] digits[i]) && digits[i] <= '9') || ('a'
                <= digits[i] && digits[i] <= 'f'),
{
    let text = name + seq![':'] + digits;
    let n = name.len() as int;
    assert(text[n] == ':');
    assert forall|i: int| 0 <= i < n implies text[i] == #[trigger] name[i] by {}
    an_algorithm_ends_where_it_does(name, text, 0);
    assert forall|i: int| 0 <= i < digits.len() implies text[n + 1 + i] == #[trigger] digits[i] by {}
    if valid_digest(text) {
        assert forall|i: int| 0 <= i < digits.len() implies digest_char(#[trigger] digits[i]) by {
            assert(digest_char(text[n + 1 + i]));
        }
    }
    if forall|i: int| 0 <= i < digits.len() ==> digest_char(#[trigger] digits[i]) {
        assert forall|i: int| n < i < text.len() implies digest_char(#[trigger] text[i]) by {
            assert(text[i] == digits[i - n - 1]);
        }
    }
}

// -- Owners, ranges and severities -------------------------------------------------

/// The name of an owner says its kind: the user, an AI analysis behind `ai:`, or an analyzer.
pub proof fn a_name_says_the_kind_of_its_owner(name: Seq<char>, rest: Seq<char>)
    ensures
        kind_of_name(name) == OwnerKind::User <==> name == "user"@,
        kind_of_name(seq!['a', 'i', ':'] + rest) == OwnerKind::AiAnalysis,
        kind_of_name(name) == OwnerKind::AiAnalysis ==> name == seq!['a', 'i', ':'] + name.skip(3),
        kind_of_name(name) == OwnerKind::Analyzer <==> name != "user"@ && !(name.len() >= 3
            && name.take(3) == seq!['a', 'i', ':']),
{
    reveal_strlit("user");
    let whole = seq!['a', 'i', ':'] + rest;
    assert(whole[0] == 'a' && whole[1] == 'i' && whole[2] == ':');
    assert("user"@[0] == 'u');
    if name.len() >= 3 {
        if name[0] == 'a' && name[1] == 'i' && name[2] == ':' {
            assert(name =~= seq!['a', 'i', ':'] + name.skip(3));
            assert(name.take(3) =~= seq!['a', 'i', ':']);
        }
        if name.take(3) == seq!['a', 'i', ':'] {
            assert(name.take(3)[0] == name[0] && name.take(3)[1] == name[1] && name.take(3)[2]
                == name[2]);
        }
    }
}

/// A range is in order exactly where lines and columns count from one and its end is not before
/// its start, by offset, by line, and by column within a line.
pub proof fn a_range_runs_forward(start: SourcePosition, end: SourcePosition)
    ensures
        range_fault(start, end) is None <==> start.line > 0 && start.column > 0 && end.line > 0
            && end.column > 0 && start.offset <= end.offset && start.line <= end.line && (start.line
            == end.line ==> start.column <= end.column),
        range_fault(start, end) == Some(RangeError::ZeroBased) <==> start.line == 0 || start.column
            == 0 || end.line == 0 || end.column == 0,
{
}

/// What leaves a file usable is a warning: an endpoint without a declaration, a schema that is
/// not met, a label that is not there, and a link that does not contribute. All else is an
/// error.
pub proof fn what_leaves_a_file_usable_is_a_warning(code: DiagnosticCode)
    ensures
        code.severity() == Severity::Warning <==> code == DiagnosticCode::NostUnresolvedEndpoint
            || code == DiagnosticCode::NostSchemaViolation || code
            == DiagnosticCode::CypherUnknownLabel || code == DiagnosticCode::LinkCycle || code
            == DiagnosticCode::LinkLimitExceeded || code == DiagnosticCode::LinkUnavailable,
        code.severity() == Severity::Warning || code.severity() == Severity::Error,
{
}

} // verus!
