//! What the lexer and the parser read can be written, and stays as it is once it is.

use super::CommentModel;
use super::CommentsModel;
use super::ContributionBlockModel;
use super::parser::Cursor;
use super::parser::Declarations;
use super::EvidenceBlockModel;
use super::EvidenceFieldModel;
use super::lexer::Keyword;
use super::LinkDeclarationModel;
use super::PropertyModel;
use super::SchemaFieldModel;
use super::Spanned;
use super::lexer::TokenKind;
use super::lexer::TokenModel;
use super::lexer::TriviaKind;
use super::ValueModel;
use super::parts::all_tidy;
use super::lexer::comment_close;
use super::parser::comment_of;
use super::parser::constraint;
use super::parser::contribution;
use super::parser::contribution_moves;
use super::parser::contributions;
use super::parser::declarations;
use super::lexer::digit_end;
use super::written::digit_run;
use super::parser::eaten;
use super::parser::edge;
use super::parser::edge_moves;
use super::parser::endpoint;
use super::parser::entry_end;
use super::parser::evidence;
use super::parser::evidence_blocks;
use super::parser::evidence_field;
use super::parser::evidence_field_moves;
use super::parser::evidence_fields;
use super::parser::evidence_moves;
use super::parser::closed;
use super::parser::evidence_value;
use super::parser::remarked;
use super::parser::expected;
use super::lexer::exponent_digits;
use super::parser::field_type;
use super::format::formatted;
use super::reread::formatted_file_reads_back;
use super::again::formatting_twice_is_formatting_once;
use super::lexer::fraction_part;
use super::lexer::has_exponent;
use super::parser::header;
use super::parser::here;
use super::lexer::hex_end;
use super::written::hex_pairs;
use super::lexer::hexadecimal;
use super::parser::identifier;
use super::parser::identifier_moves;
use super::parser::is_comment;
use crate::number::is_digit;
use super::parser::kind;
use super::lexer::lexed;
use super::lexer::line_end;
use super::parser::link;
use super::parser::link_moves;
use super::parser::links;
use super::parser::more_schemas;
use super::parts::nameable;
use super::parser::names;
use super::parser::node;
use super::parser::node_moves;
use super::lexer::number_piece;
use super::written::numeral;
use super::parser::owner;
use super::parser::parsed;
use super::lexer::peek;
use super::lexer::piece_at;
use super::lexer::pieces_are_bounded;
use super::parser::properties;
use super::parser::property;
use super::parser::property_moves;
use super::parser::quoted;
use super::parser::record_body;
use super::lexer::runs_are_bounded;
use super::reread::same_file;
use super::parser::scalar;
use super::parser::scalar_moves;
use super::parser::scalars;
use super::parser::schema;
use super::parser::schema_field;
use super::parser::schema_field_moves;
use super::parser::schema_fields;
use super::parser::schema_moves;
use super::lexer::single;
use super::parser::skip;
use super::parser::skip_moves;
use crate::unicode::space_bounds;
use crate::unicode::space_end;
use crate::unicode::space_start;
use super::lexer::starts_line;
use super::parser::step;
use super::parser::taken;
use super::written::tidy;
use super::parts::tidy_comments;
use super::lexer::token_of;
use super::lexer::tokens_of;
use super::parser::trailing;
use super::parser::trailing_at;
use crate::unicode::trimmed;
use super::parser::unit;
use super::parser::value;
use crate::unicode::white_space;
use super::lexer::word_end;
use super::written::word_kind;
use super::written::wordy;
use super::parts::writable;
use super::parts::writable_contribution;
use super::parts::writable_edge;
use super::parts::writable_endpoint;
use super::parts::writable_evidence;
use super::parts::writable_evidence_block;
use super::parts::writable_evidence_field;
use super::parts::writable_field;
use super::parts::writable_link;
use super::parts::writable_node;
use super::parts::writable_property;
use super::parts::writable_record;
use super::parts::writable_scalar;
use super::parts::writable_schema;
use super::parts::writable_value;
use crate::unicode::xid_continue;
use crate::unicode::xid_start;
use vstd::prelude::*;

verus! {

// -- What the lexer reads ----------------------------------------------------------

/// Whether a token of a kind can say a text.
pub open spec fn clean(kind: TokenKind, text: Seq<char>) -> bool {
    match kind {
        TokenKind::Identifier => wordy(text) && word_kind(text) == kind,
        TokenKind::Keyword(_) => wordy(text) && word_kind(text) == kind,
        TokenKind::IntegerLiteral => numeral(kind, text),
        TokenKind::FloatLiteral => numeral(kind, text),
        TokenKind::BytesLiteral => hex_pairs(text),
        TokenKind::Trivia(TriviaKind::LineComment) => line_tidy(text),
        TokenKind::Trivia(TriviaKind::BlockComment) => block_tidy(text),
        _ => true,
    }
}

/// Whether a text can be that of a line comment.
pub open spec fn line_tidy(text: Seq<char>) -> bool {
    &&& forall|i: int| 0 <= i < text.len() ==> #[trigger] text[i] != '\n'
    &&& text.len() > 0 ==> !white_space(text[0]) && !white_space(text[text.len() - 1])
}

/// Whether a text can be that of a block comment.
pub open spec fn block_tidy(text: Seq<char>) -> bool {
    forall|i: int| 0 <= i < text.len() - 1 ==> !(#[trigger] text[i] == '*' && text[i + 1] == '/')
}

/// What stands in a run, and where it ends.
proof fn runs_hold(source: Seq<char>, at: int)
    requires
        0 <= at <= source.len(),
    ensures
        forall|k: int| at <= k < word_end(source, at) ==> xid_continue(#[trigger] source[k]),
        forall|k: int| at <= k < digit_end(source, at) ==> is_digit(#[trigger] source[k]),
        digit_end(source, at) < source.len() ==> !is_digit(source[digit_end(source, at)]),
        forall|k: int| at <= k < hex_end(source, at) ==> hexadecimal(#[trigger] source[k]),
        forall|k: int| at <= k < line_end(source, at) ==> #[trigger] source[k] != '\n',
        comment_close(source, at) matches Some(close) ==> forall|k: int|
            at <= k < close ==> !(#[trigger] source[k] == '*' && source[k + 1] == '/'),
    decreases source.len() - at,
{
    if at < source.len() {
        runs_hold(source, at + 1);
    }
}

proof fn trimmed_is_tidy(text: Seq<char>)
    requires
        forall|i: int| 0 <= i < text.len() ==> #[trigger] text[i] != '\n',
    ensures
        line_tidy(trimmed(text)),
{
    let n = text.len() as int;
    let from = space_end(text, 0, n);
    space_bounds(text, 0, n);
    space_bounds(text, from, n);
    let to = space_start(text, from, n);
    start_is_no_space(text, 0, n);
    end_is_no_space(text, from, n);
}

proof fn start_is_no_space(text: Seq<char>, from: int, to: int)
    requires
        0 <= from <= to <= text.len(),
    ensures
        space_end(text, from, to) < to ==> !white_space(text[space_end(text, from, to)]),
    decreases to - from,
{
    if from < to {
        start_is_no_space(text, from + 1, to);
    }
}

proof fn end_is_no_space(text: Seq<char>, from: int, to: int)
    requires
        0 <= from <= to <= text.len(),
    ensures
        space_start(text, from, to) > from ==> !white_space(text[space_start(text, from, to) - 1]),
    decreases to - from,
{
    if from < to {
        end_is_no_space(text, from, to - 1);
    }
}

/// A number that is read is one by itself.
proof fn number_is_clean(source: Seq<char>, at: int)
    requires
        0 <= at < source.len(),
    ensures
        number_piece(source, at) matches Ok(found) ==> numeral(found.kind, found.text),
{
    let first = if peek(source, at) == Some('-') {
        at + 1
    } else {
        at
    };
    runs_are_bounded(source, first);
    runs_hold(source, first);
    let whole = digit_end(source, first);
    if number_piece(source, at) is Ok {
        let mark = fraction_part(source, whole)->Ok_0;
        if peek(source, whole) == Some('.') {
            runs_are_bounded(source, whole + 1);
            runs_hold(source, whole + 1);
        }
        let text = number_piece(source, at)->Ok_0.text;
        if has_exponent(source, mark) {
            let digits = exponent_digits(source, mark);
            runs_are_bounded(source, digits);
            runs_hold(source, digits);
            let end = digit_end(source, digits);
            assert(text.len() == end - at);
            assert forall|k: int| 0 <= k < text.len() implies #[trigger] text[k] == (if k == mark
                - at {
                'e'
            } else {
                source[at + k]
            }) by {}
            digit_run(text, first - at, whole - at);
            if peek(source, whole) == Some('.') {
                digit_run(text, whole + 1 - at, mark - at);
            }
            assert(fraction_part(text, whole - at) == Ok::<int, super::lexer::Fault>(mark - at));
            assert(exponent_digits(text, mark - at) == digits - at);
            digit_run(text, digits - at, text.len() as int);
            assert(text.subrange(0, mark - at).push('e') + text.subrange(
                mark - at + 1,
                text.len() as int,
            ) =~= text);
        } else {
            assert(text.len() == mark - at);
            assert forall|k: int| 0 <= k < text.len() implies #[trigger] text[k] == source[at + k] by {}
            digit_run(text, first - at, whole - at);
            if peek(source, whole) == Some('.') {
                digit_run(text, whole + 1 - at, mark - at);
            }
            assert(fraction_part(text, whole - at) == Ok::<int, super::lexer::Fault>(mark - at));
            assert(text.subrange(0, mark - at) =~= text);
        }
    }
}

/// A token that is read can say what it says.
proof fn piece_is_clean(source: Seq<char>, at: int)
    requires
        0 <= at < source.len(),
    ensures
        piece_at(source, at) matches Ok(found) ==> clean(found.kind, found.text),
{
    let c = source[at];
    runs_are_bounded(source, at + 1);
    runs_hold(source, at + 1);
    if white_space(c) {
    } else if c == '/' && peek(source, at + 1) == Some('/') {
        runs_are_bounded(source, at + 2);
        runs_hold(source, at + 2);
        let inner = source.subrange(at + 2, line_end(source, at + 2));
        assert forall|i: int| 0 <= i < inner.len() implies #[trigger] inner[i] != '\n' by {
            assert(inner[i] == source[at + 2 + i]);
        }
        trimmed_is_tidy(inner);
    } else if c == '/' && peek(source, at + 1) == Some('*') {
        runs_are_bounded(source, at + 2);
        runs_hold(source, at + 2);
        if let Some(close) = comment_close(source, at + 2) {
            let inner = source.subrange(at + 2, close);
            assert forall|i: int| 0 <= i < inner.len() - 1 implies !(#[trigger] inner[i] == '*'
                && inner[i + 1] == '/') by {
                assert(inner[i] == source[at + 2 + i]);
                assert(inner[i + 1] == source[at + 2 + i + 1]);
            }
        }
    } else if c == '@' || c == '"' || single(c) is Some || c == ':' || (c == '-' && peek(
        source,
        at + 1,
    ) == Some('>')) {
    } else if c == '-' || is_digit(c) {
        number_is_clean(source, at);
        number_kind(source, at);
    } else if xid_start(c) || c == '_' {
        let end = word_end(source, at + 1);
        let word = source.subrange(at, end);
        assert forall|i: int| 1 <= i < word.len() implies xid_continue(#[trigger] word[i]) by {
            assert(word[i] == source[at + i]);
        }
        assert(word[0] == c);
        if peek(source, end) == Some('"') && word == "bytes"@ {
            runs_are_bounded(source, end + 1);
            runs_hold(source, end + 1);
            let digits = source.subrange(end + 1, hex_end(source, end + 1));
            assert forall|i: int| 0 <= i < digits.len() implies hexadecimal(#[trigger] digits[i]) by {
                assert(digits[i] == source[end + 1 + i]);
            }
        }
    }
}

/// A number is an integer or a float.
pub proof fn number_kind(source: Seq<char>, at: int)
    ensures
        number_piece(source, at) matches Ok(found) ==> found.kind == TokenKind::IntegerLiteral
            || found.kind == TokenKind::FloatLiteral,
{
}

/// Whether every token can say what it says.
pub open spec fn all_clean(tokens: Seq<TokenModel>) -> bool {
    forall|i: int| 0 <= i < tokens.len() ==> clean((#[trigger] tokens[i]).kind, tokens[i].text)
}

/// The lexer reads tokens that can say what they say.
proof fn lexed_is_clean(source: Seq<char>, at: int, own: bool, before: Seq<TokenModel>)
    requires
        0 <= at <= source.len(),
        all_clean(before),
    ensures
        lexed(source, at, own, before) matches Ok(tokens) ==> all_clean(tokens),
    decreases source.len() - at,
{
    if at < source.len() {
        pieces_are_bounded(source, at);
        piece_is_clean(source, at);
        if let Ok(found) = piece_at(source, at) {
            lexed_is_clean(
                source,
                found.next,
                starts_line(source, at, found, own),
                before.push(token_of(source, at, found, own)),
            );
        }
    }
}

// -- What the parser reads ---------------------------------------------------------

proof fn here_is_clean(tokens: Seq<TokenModel>, cursor: Cursor)
    requires
        all_clean(tokens),
    ensures
        clean(here(tokens, cursor).kind, here(tokens, cursor).text),
        is_comment(here(tokens, cursor)) ==> tidy(comment_of(here(tokens, cursor))),
{
}

proof fn skip_is_clean(tokens: Seq<TokenModel>, cursor: Cursor)
    requires
        all_clean(tokens),
        all_tidy(cursor.pending),
    ensures
        all_tidy(skip(tokens, cursor).pending),
    decreases tokens.len() - cursor.index,
{
    if 0 <= cursor.index < tokens.len() {
        here_is_clean(tokens, cursor);
        if kind(tokens, cursor) == TokenKind::Trivia(TriviaKind::Whitespace) {
            skip_is_clean(tokens, step(cursor));
        } else if is_comment(here(tokens, cursor)) {
            skip_is_clean(
                tokens,
                Cursor {
                    index: cursor.index + 1,
                    pending: cursor.pending.push(comment_of(here(tokens, cursor))),
                },
            );
        }
    }
}

proof fn trailing_at_is_clean(tokens: Seq<TokenModel>, index: int)
    requires
        all_clean(tokens),
    ensures
        trailing_at(tokens, index) matches Some((comment, _)) ==> tidy(comment),
    decreases tokens.len() - index,
{
    if 0 <= index < tokens.len() {
        here_is_clean(tokens, Cursor { index, pending: Seq::empty() });
        if tokens[index].kind == TokenKind::Trivia(TriviaKind::Whitespace) {
            trailing_at_is_clean(tokens, index + 1);
        }
    }
}

proof fn trailing_is_clean(tokens: Seq<TokenModel>, cursor: Cursor)
    requires
        all_clean(tokens),
    ensures
        trailing(tokens, cursor).0 matches Some(comment) ==> tidy(comment),
        trailing(tokens, cursor).1.pending == cursor.pending,
{
    trailing_at_is_clean(tokens, cursor.index);
}

proof fn expected_is_clean(tokens: Seq<TokenModel>, cursor: Cursor, wanted: TokenKind, what: Seq<char>)
    requires
        all_clean(tokens),
        all_tidy(cursor.pending),
    ensures
        expected(tokens, cursor, wanted, what) matches Ok((found, next)) ==> all_tidy(next.pending)
            && clean(found.kind, found.text) && found.kind == wanted,
{
    skip_is_clean(tokens, cursor);
    here_is_clean(tokens, skip(tokens, cursor));
}

proof fn identifier_is_clean(tokens: Seq<TokenModel>, cursor: Cursor, what: Seq<char>)
    requires
        all_clean(tokens),
        all_tidy(cursor.pending),
    ensures
        identifier(tokens, cursor, what) matches Ok((found, next)) ==> all_tidy(next.pending)
            && nameable(found.value),
{
    skip_is_clean(tokens, cursor);
    here_is_clean(tokens, skip(tokens, cursor));
}

proof fn quoted_is_clean(tokens: Seq<TokenModel>, cursor: Cursor, what: Seq<char>)
    requires
        all_clean(tokens),
        all_tidy(cursor.pending),
    ensures
        quoted(tokens, cursor, what) matches Ok((found, next)) ==> all_tidy(next.pending),
{
    expected_is_clean(tokens, cursor, TokenKind::StringLiteral, what);
}

proof fn remarks_are_clean(tokens: Seq<TokenModel>, cursor: Cursor, leading: Seq<CommentModel>)
    requires
        all_clean(tokens),
        all_tidy(cursor.pending),
        all_tidy(leading),
    ensures
        tidy_comments(remarked(tokens, cursor, leading).0),
        all_tidy(remarked(tokens, cursor, leading).0.leading),
        all_tidy(remarked(tokens, cursor, leading).1.pending),
{
    trailing_is_clean(tokens, taken(cursor));
    let both = leading + cursor.pending;
    assert forall|i: int| 0 <= i < both.len() implies tidy(#[trigger] both[i]) by {
        if i < leading.len() {
            assert(tidy(leading[i]));
        } else {
            assert(tidy(cursor.pending[i - leading.len()]));
        }
    }
}

proof fn closing_is_clean(
    tokens: Seq<TokenModel>,
    cursor: Cursor,
    what: Seq<char>,
    comments: CommentsModel,
    hollow: bool,
)
    requires
        all_clean(tokens),
        all_tidy(cursor.pending),
        tidy_comments(comments),
    ensures
        expected(tokens, taken(cursor), TokenKind::RightBrace, what) matches Ok((_, next)) ==> {
            let (found, left, last) = closed(tokens, next, comments, hollow, cursor.pending);
            tidy_comments(found) && all_tidy(left) && all_tidy(last.pending)
        },
{
    expected_is_clean(tokens, taken(cursor), TokenKind::RightBrace, what);
    if let Ok((_, next)) = expected(tokens, taken(cursor), TokenKind::RightBrace, what) {
        trailing_is_clean(tokens, next);
        let left = cursor.pending;
        let all = closed(tokens, next, comments, hollow, left).1;
        assert forall|i: int| 0 <= i < all.len() implies tidy(#[trigger] all[i]) by {
            if i < left.len() {
                assert(tidy(left[i]));
            }
        }
    }
}

proof fn entry_is_clean(tokens: Seq<TokenModel>, cursor: Cursor, leading: Seq<CommentModel>)
    requires
        all_clean(tokens),
        all_tidy(cursor.pending),
        all_tidy(leading),
    ensures
        ({
            let (_, found, next) = entry_end(tokens, cursor, leading);
            &&& all_tidy(next.pending)
            &&& tidy_comments(found)
        }),
{
    remarks_are_clean(tokens, cursor, leading);
    let (first, behind_it) = remarked(tokens, cursor, leading);
    skip_is_clean(tokens, behind_it);
    let (_, next) = eaten(tokens, behind_it, TokenKind::Comma);
    remarks_are_clean(tokens, next, first.leading);
}

proof fn endpoint_is_clean(tokens: Seq<TokenModel>, cursor: Cursor)
    requires
        all_clean(tokens),
        all_tidy(cursor.pending),
    ensures
        endpoint(tokens, cursor) matches Ok((found, next)) ==> all_tidy(next.pending)
            && writable_endpoint(found),
{
    skip_is_clean(tokens, cursor);
    let at = skip(tokens, cursor);
    quoted_is_clean(tokens, at, "a locator"@);
    if let Ok((_, second)) = quoted(tokens, at, "a locator"@) {
        expected_is_clean(tokens, second, TokenKind::ColonColon, "`::` after a locator"@);
        if let Ok((_, third)) = expected(
            tokens,
            second,
            TokenKind::ColonColon,
            "`::` after a locator"@,
        ) {
            identifier_is_clean(tokens, third, "a declaration name"@);
        }
    }
    identifier_is_clean(tokens, at, "an endpoint"@);
    if let Ok((_, next)) = identifier(tokens, at, "an endpoint"@) {
        skip_is_clean(tokens, next);
        identifier_is_clean(tokens, step(skip(tokens, next)), "a declaration name"@);
    }
}

proof fn scalar_is_clean(tokens: Seq<TokenModel>, cursor: Cursor)
    requires
        all_clean(tokens),
        all_tidy(cursor.pending),
    ensures
        scalar(tokens, cursor) matches Ok((found, next)) ==> all_tidy(next.pending)
            && writable_scalar(found.value),
{
    skip_is_clean(tokens, cursor);
    here_is_clean(tokens, skip(tokens, cursor));
}

/// Whether items can be written.
spec fn fine_items(items: Seq<Spanned<ValueModel>>) -> bool {
    forall|i: int|
        0 <= i < items.len() ==> writable_scalar((#[trigger] items[i]).value)
}

proof fn scalars_are_clean(
    tokens: Seq<TokenModel>,
    cursor: Cursor,
    before: Seq<Spanned<ValueModel>>,
)
    requires
        all_clean(tokens),
        all_tidy(cursor.pending),
        fine_items(before),
    ensures
        scalars(tokens, cursor, before) matches Ok((found, next)) ==> all_tidy(next.pending)
            && fine_items(found),
    decreases tokens.len() - cursor.index,
{
    scalar_moves(tokens, cursor);
    scalar_is_clean(tokens, cursor);
    if let Ok((item, next)) = scalar(tokens, cursor) {
        skip_is_clean(tokens, next);
        skip_moves(tokens, next);
        let comma = skip(tokens, next);
        if kind(tokens, comma) == TokenKind::Comma {
            skip_is_clean(tokens, step(comma));
            skip_moves(tokens, step(comma));
            scalars_are_clean(tokens, skip(tokens, step(comma)), before.push(item));
        }
    }
}

proof fn value_is_clean(tokens: Seq<TokenModel>, cursor: Cursor)
    requires
        all_clean(tokens),
        all_tidy(cursor.pending),
    ensures
        value(tokens, cursor) matches Ok((found, next)) ==> all_tidy(next.pending)
            && writable_value(found.value),
{
    skip_is_clean(tokens, cursor);
    let at = skip(tokens, cursor);
    if kind(tokens, at) != TokenKind::LeftBracket {
        scalar_is_clean(tokens, at);
    } else {
        skip_is_clean(tokens, step(at));
        let first = skip(tokens, step(at));
        let none = Seq::<Spanned<ValueModel>>::empty();
        scalars_are_clean(tokens, first, none);
        expected_is_clean(tokens, first, TokenKind::RightBracket, "`]`"@);
        if let Ok((items, next)) = scalars(tokens, first, none) {
            expected_is_clean(tokens, next, TokenKind::RightBracket, "`]`"@);
        }
    }
}

/// Whether properties can be written.
spec fn fine_properties(items: Seq<PropertyModel>) -> bool {
    forall|i: int|
        0 <= i < items.len() ==> writable_property(#[trigger] items[i])
}

proof fn property_is_clean(tokens: Seq<TokenModel>, cursor: Cursor)
    requires
        all_clean(tokens),
        all_tidy(cursor.pending),
    ensures
        property(tokens, cursor) matches Ok(((found, _), next)) ==> all_tidy(next.pending)
            && writable_property(found),
{
    identifier_is_clean(tokens, taken(cursor), "a property key"@);
    if let Ok((_, second)) = identifier(tokens, taken(cursor), "a property key"@) {
        expected_is_clean(tokens, second, TokenKind::Colon, "`:` after a property key"@);
        if let Ok((_, third)) = expected(
            tokens,
            second,
            TokenKind::Colon,
            "`:` after a property key"@,
        ) {
            value_is_clean(tokens, third);
            if let Ok((_, fourth)) = value(tokens, third) {
                entry_is_clean(tokens, fourth, cursor.pending);
            }
        }
    }
}

proof fn properties_are_clean(
    tokens: Seq<TokenModel>,
    cursor: Cursor,
    before: Seq<PropertyModel>,
)
    requires
        all_clean(tokens),
        all_tidy(cursor.pending),
        fine_properties(before),
    ensures
        properties(tokens, cursor, before) matches Ok((found, next)) ==> all_tidy(next.pending)
            && fine_properties(found),
    decreases tokens.len() - cursor.index,
{
    let at = skip(tokens, cursor);
    skip_is_clean(tokens, cursor);
    if names(kind(tokens, at)) {
        skip_moves(tokens, cursor);
        property_moves(tokens, at);
        property_is_clean(tokens, at);
        if let Ok(((found, separated), next)) = property(tokens, at) {
            if separated {
                properties_are_clean(tokens, next, before.push(found));
            }
        }
    }
}

proof fn evidence_value_is_clean(tokens: Seq<TokenModel>, cursor: Cursor)
    requires
        all_clean(tokens),
        all_tidy(cursor.pending),
    ensures
        evidence_value(tokens, cursor) matches Ok((found, next)) ==> all_tidy(next.pending)
            && writable_evidence(found.value),
{
    skip_is_clean(tokens, cursor);
    let at = skip(tokens, cursor);
    quoted_is_clean(tokens, at, "a quoted value"@);
    identifier_is_clean(tokens, at, "a quoted value or a bare word"@);
    if let Ok((_, next)) = identifier(tokens, at, "a quoted value or a bare word"@) {
        skip_is_clean(tokens, next);
        let open = skip(tokens, next);
        skip_is_clean(tokens, step(open));
        let number = skip(tokens, step(open));
        here_is_clean(tokens, number);
        expected_is_clean(tokens, step(number), TokenKind::RightParen, "`)` after a score"@);
    }
}

/// Whether evidence fields can be written.
spec fn fine_evidence_fields(items: Seq<EvidenceFieldModel>) -> bool {
    forall|i: int| 0 <= i < items.len() ==> writable_evidence_field(#[trigger] items[i])
}

proof fn evidence_field_is_clean(tokens: Seq<TokenModel>, cursor: Cursor)
    requires
        all_clean(tokens),
        all_tidy(cursor.pending),
    ensures
        evidence_field(tokens, cursor) matches Ok(((found, _), next)) ==> all_tidy(next.pending)
            && writable_evidence_field(found),
{
    identifier_is_clean(tokens, taken(cursor), "an evidence key"@);
    if let Ok((_, second)) = identifier(tokens, taken(cursor), "an evidence key"@) {
        expected_is_clean(tokens, second, TokenKind::Colon, "`:` after an evidence key"@);
        if let Ok((_, third)) = expected(
            tokens,
            second,
            TokenKind::Colon,
            "`:` after an evidence key"@,
        ) {
            evidence_value_is_clean(tokens, third);
            if let Ok((_, fourth)) = evidence_value(tokens, third) {
                entry_is_clean(tokens, fourth, cursor.pending);
            }
        }
    }
}

proof fn evidence_fields_are_clean(
    tokens: Seq<TokenModel>,
    cursor: Cursor,
    before: Seq<EvidenceFieldModel>,
)
    requires
        all_clean(tokens),
        all_tidy(cursor.pending),
        fine_evidence_fields(before),
    ensures
        evidence_fields(tokens, cursor, before) matches Ok((found, next)) ==> all_tidy(
            next.pending,
        ) && fine_evidence_fields(found),
    decreases tokens.len() - cursor.index,
{
    let at = skip(tokens, cursor);
    skip_is_clean(tokens, cursor);
    if names(kind(tokens, at)) {
        skip_moves(tokens, cursor);
        evidence_field_moves(tokens, at);
        evidence_field_is_clean(tokens, at);
        if let Ok(((found, separated), next)) = evidence_field(tokens, at) {
            if separated {
                evidence_fields_are_clean(tokens, next, before.push(found));
            }
        }
    }
}

proof fn evidence_is_clean(tokens: Seq<TokenModel>, cursor: Cursor)
    requires
        all_clean(tokens),
        all_tidy(cursor.pending),
    ensures
        evidence(tokens, cursor) matches Ok((found, next)) ==> all_tidy(next.pending)
            && writable_evidence_block(found),
{
    let none = Seq::<EvidenceFieldModel>::empty();
    expected_is_clean(tokens, taken(cursor), TokenKind::EvidenceDirective, "`@evidence`"@);
    if let Ok((_, second)) = expected(
        tokens,
        taken(cursor),
        TokenKind::EvidenceDirective,
        "`@evidence`"@,
    ) {
        expected_is_clean(tokens, second, TokenKind::LeftBrace, "`{` to open an evidence block"@);
        if let Ok((_, third)) = expected(
            tokens,
            second,
            TokenKind::LeftBrace,
            "`{` to open an evidence block"@,
        ) {
            remarks_are_clean(tokens, third, cursor.pending);
            let (comments, fourth) = remarked(tokens, third, cursor.pending);
            evidence_fields_are_clean(tokens, fourth, none);
            if let Ok((fields, fifth)) = evidence_fields(tokens, fourth, none) {
                let end = "`}` to close an evidence block"@;
                closing_is_clean(tokens, fifth, end, comments, fields.len() == 0);
            }
        }
    }
}

/// Whether evidence blocks can be written.
spec fn fine_evidence_blocks(items: Seq<EvidenceBlockModel>) -> bool {
    forall|i: int|
        0 <= i < items.len() ==> writable_evidence_block(#[trigger] items[i])
}

proof fn evidence_blocks_are_clean(
    tokens: Seq<TokenModel>,
    cursor: Cursor,
    before: Seq<EvidenceBlockModel>,
)
    requires
        all_clean(tokens),
        all_tidy(cursor.pending),
        fine_evidence_blocks(before),
    ensures
        evidence_blocks(tokens, cursor, before) matches Ok((found, next)) ==> all_tidy(
            next.pending,
        ) && fine_evidence_blocks(found),
    decreases tokens.len() - cursor.index,
{
    let at = skip(tokens, cursor);
    skip_is_clean(tokens, cursor);
    if kind(tokens, at) == TokenKind::EvidenceDirective {
        skip_moves(tokens, cursor);
        evidence_moves(tokens, at);
        evidence_is_clean(tokens, at);
        if let Ok((found, next)) = evidence(tokens, at) {
            evidence_blocks_are_clean(tokens, next, before.push(found));
        }
    }
}

proof fn owner_is_clean(tokens: Seq<TokenModel>, cursor: Cursor)
    requires
        all_clean(tokens),
        all_tidy(cursor.pending),
    ensures
        owner(tokens, cursor) matches Ok((_, next)) ==> all_tidy(next.pending),
{
    skip_is_clean(tokens, cursor);
    let at = skip(tokens, cursor);
    quoted_is_clean(tokens, step(at), "a quoted analyzer name"@);
    if let Ok((_, next)) = quoted(tokens, step(at), "a quoted analyzer name"@) {
        quoted_is_clean(tokens, next, "a quoted analyzer version"@);
    }
    quoted_is_clean(tokens, step(at), "a quoted analysis contract digest"@);
}

proof fn unit_is_clean(tokens: Seq<TokenModel>, cursor: Cursor)
    requires
        all_clean(tokens),
        all_tidy(cursor.pending),
    ensures
        unit(tokens, cursor) matches Ok((_, next)) ==> all_tidy(next.pending),
{
    skip_is_clean(tokens, cursor);
    quoted_is_clean(tokens, step(skip(tokens, cursor)), "a quoted source unit identifier"@);
}

proof fn contribution_is_clean(tokens: Seq<TokenModel>, cursor: Cursor)
    requires
        all_clean(tokens),
        all_tidy(cursor.pending),
    ensures
        contribution(tokens, cursor) matches Ok((found, next)) ==> all_tidy(next.pending)
            && writable_contribution(found),
{
    let none = Seq::<EvidenceBlockModel>::empty();
    let what = "`{` to open a contribution block"@;
    expected_is_clean(tokens, taken(cursor), TokenKind::ByDirective, "`@by`"@);
    if let Ok((_, second)) = expected(tokens, taken(cursor), TokenKind::ByDirective, "`@by`"@) {
        owner_is_clean(tokens, second);
        if let Ok((_, third)) = owner(tokens, second) {
            unit_is_clean(tokens, third);
            if let Ok((_, fourth)) = unit(tokens, third) {
                expected_is_clean(tokens, fourth, TokenKind::LeftBrace, what);
                if let Ok((_, fifth)) = expected(tokens, fourth, TokenKind::LeftBrace, what) {
                    remarks_are_clean(tokens, fifth, cursor.pending);
                    let (comments, sixth) = remarked(tokens, fifth, cursor.pending);
                    evidence_blocks_are_clean(tokens, sixth, none);
                    if let Ok((blocks, seventh)) = evidence_blocks(tokens, sixth, none) {
                        let end = "`}` to close a contribution block"@;
                        closing_is_clean(tokens, seventh, end, comments, blocks.len() == 0);
                    }
                }
            }
        }
    }
}

/// Whether contributions can be written.
spec fn fine_contributions(items: Seq<ContributionBlockModel>) -> bool {
    forall|i: int|
        0 <= i < items.len() ==> writable_contribution(#[trigger] items[i])
}

proof fn contributions_are_clean(
    tokens: Seq<TokenModel>,
    cursor: Cursor,
    before: Seq<ContributionBlockModel>,
)
    requires
        all_clean(tokens),
        all_tidy(cursor.pending),
        fine_contributions(before),
    ensures
        contributions(tokens, cursor, before) matches Ok((found, next)) ==> all_tidy(next.pending)
            && fine_contributions(found),
    decreases tokens.len() - cursor.index,
{
    let at = skip(tokens, cursor);
    skip_is_clean(tokens, cursor);
    if kind(tokens, at) == TokenKind::ByDirective {
        skip_moves(tokens, cursor);
        contribution_moves(tokens, at);
        contribution_is_clean(tokens, at);
        if let Ok((found, next)) = contribution(tokens, at) {
            contributions_are_clean(tokens, next, before.push(found));
        }
    }
}

proof fn record_is_clean(tokens: Seq<TokenModel>, cursor: Cursor, leading: Seq<CommentModel>)
    requires
        all_clean(tokens),
        all_tidy(cursor.pending),
        all_tidy(leading),
    ensures
        record_body(tokens, cursor, leading) matches Ok((found, next)) ==> all_tidy(next.pending)
            && writable_record(found),
{
    let none = Seq::<PropertyModel>::empty();
    let nothing = Seq::<ContributionBlockModel>::empty();
    let what = "`{` to open a record block"@;
    expected_is_clean(tokens, cursor, TokenKind::LeftBrace, what);
    if let Ok((_, second)) = expected(tokens, cursor, TokenKind::LeftBrace, what) {
        remarks_are_clean(tokens, second, leading);
        let (comments, third) = remarked(tokens, second, leading);
        properties_are_clean(tokens, third, none);
        if let Ok((first, fourth)) = properties(tokens, third, none) {
            contributions_are_clean(tokens, fourth, nothing);
            if let Ok((blocks, fifth)) = contributions(tokens, fourth, nothing) {
                let end = "`}` to close a record block"@;
                let hollow = first.len() == 0 && blocks.len() == 0;
                closing_is_clean(tokens, fifth, end, comments, hollow);
            }
        }
    }
}

proof fn type_is_clean(tokens: Seq<TokenModel>, cursor: Cursor)
    requires
        all_clean(tokens),
        all_tidy(cursor.pending),
    ensures
        field_type(tokens, cursor) matches Ok((_, next)) ==> all_tidy(next.pending),
{
    skip_is_clean(tokens, cursor);
    let second = step(skip(tokens, cursor));
    let what = "`]` to close an array type"@;
    expected_is_clean(tokens, step(second), TokenKind::RightBracket, what);
    if let Ok((_, next)) = expected(tokens, step(second), TokenKind::RightBracket, what) {
        skip_is_clean(tokens, next);
    }
}

/// Whether schema fields can be written.
spec fn fine_fields(items: Seq<SchemaFieldModel>) -> bool {
    forall|i: int| 0 <= i < items.len() ==> writable_field(#[trigger] items[i])
}

proof fn field_is_clean(tokens: Seq<TokenModel>, cursor: Cursor)
    requires
        all_clean(tokens),
        all_tidy(cursor.pending),
    ensures
        schema_field(tokens, cursor) matches Ok(((found, _), next)) ==> all_tidy(next.pending)
            && writable_field(found),
{
    identifier_is_clean(tokens, taken(cursor), "a field key"@);
    if let Ok((_, second)) = identifier(tokens, taken(cursor), "a field key"@) {
        skip_is_clean(tokens, second);
        let (_, third) = eaten(tokens, second, TokenKind::Question);
        expected_is_clean(tokens, third, TokenKind::Colon, "`:` after a field key"@);
        if let Ok((_, fourth)) = expected(
            tokens,
            third,
            TokenKind::Colon,
            "`:` after a field key"@,
        ) {
            type_is_clean(tokens, fourth);
            if let Ok((_, fifth)) = field_type(tokens, fourth) {
                entry_is_clean(tokens, fifth, cursor.pending);
            }
        }
    }
}

proof fn fields_are_clean(tokens: Seq<TokenModel>, cursor: Cursor, before: Seq<SchemaFieldModel>)
    requires
        all_clean(tokens),
        all_tidy(cursor.pending),
        fine_fields(before),
    ensures
        schema_fields(tokens, cursor, before) matches Ok((found, next)) ==> all_tidy(next.pending)
            && fine_fields(found),
    decreases tokens.len() - cursor.index,
{
    let at = skip(tokens, cursor);
    skip_is_clean(tokens, cursor);
    if names(kind(tokens, at)) {
        skip_moves(tokens, cursor);
        schema_field_moves(tokens, at);
        field_is_clean(tokens, at);
        if let Ok(((found, separated), next)) = schema_field(tokens, at) {
            if separated {
                fields_are_clean(tokens, next, before.push(found));
            }
        }
    }
}

proof fn constraint_is_clean(tokens: Seq<TokenModel>, cursor: Cursor)
    requires
        all_clean(tokens),
        all_tidy(cursor.pending),
    ensures
        constraint(tokens, cursor) matches Ok((found, next)) ==> all_tidy(next.pending) && (
        found matches Some(pair) ==> nameable(pair.source.value) && nameable(pair.target.value)),
{
    skip_is_clean(tokens, cursor);
    let at = skip(tokens, cursor);
    identifier_is_clean(tokens, step(at), "the source schema name"@);
    if let Ok((_, second)) = identifier(tokens, step(at), "the source schema name"@) {
        let what = "`->` between the endpoint schemas"@;
        expected_is_clean(tokens, second, TokenKind::Arrow, what);
        if let Ok((_, third)) = expected(tokens, second, TokenKind::Arrow, what) {
            identifier_is_clean(tokens, third, "the target schema name"@);
            if let Ok((_, fourth)) = identifier(tokens, third, "the target schema name"@) {
                expected_is_clean(
                    tokens,
                    fourth,
                    TokenKind::RightParen,
                    "`)` after the endpoint schemas"@,
                );
            }
        }
    }
}

proof fn schema_is_clean(tokens: Seq<TokenModel>, cursor: Cursor)
    requires
        all_clean(tokens),
        all_tidy(cursor.pending),
    ensures
        schema(tokens, cursor) matches Ok((found, next)) ==> all_tidy(next.pending)
            && writable_schema(found),
{
    let none = Seq::<SchemaFieldModel>::empty();
    let what = "`{` to open a field block"@;
    let word = TokenKind::Keyword(Keyword::Schema);
    expected_is_clean(tokens, taken(cursor), word, "`schema`"@);
    if let Ok((_, second)) = expected(tokens, taken(cursor), word, "`schema`"@) {
        identifier_is_clean(tokens, second, "a schema name"@);
        if let Ok((_, third)) = identifier(tokens, second, "a schema name"@) {
            constraint_is_clean(tokens, third);
            if let Ok((_, fourth)) = constraint(tokens, third) {
                expected_is_clean(tokens, fourth, TokenKind::LeftBrace, what);
                if let Ok((_, fifth)) = expected(tokens, fourth, TokenKind::LeftBrace, what) {
                    remarks_are_clean(tokens, fifth, cursor.pending);
                    let (comments, sixth) = remarked(tokens, fifth, cursor.pending);
                    fields_are_clean(tokens, sixth, none);
                    if let Ok((fields, seventh)) = schema_fields(tokens, sixth, none) {
                        let end = "`}` to close a field block"@;
                        closing_is_clean(tokens, seventh, end, comments, fields.len() == 0);
                    }
                }
            }
        }
    }
}

/// Whether names can be written.
spec fn fine_names(items: Seq<Spanned<Seq<char>>>) -> bool {
    forall|i: int| 0 <= i < items.len() ==> nameable((#[trigger] items[i]).value)
}

proof fn more_schemas_are_clean(
    tokens: Seq<TokenModel>,
    cursor: Cursor,
    before: Seq<Spanned<Seq<char>>>,
)
    requires
        all_clean(tokens),
        all_tidy(cursor.pending),
        fine_names(before),
    ensures
        more_schemas(tokens, cursor, before) matches Ok((found, next)) ==> all_tidy(next.pending)
            && fine_names(found) && found.len() >= before.len(),
    decreases tokens.len() - cursor.index,
{
    skip_is_clean(tokens, cursor);
    let (separated, next) = eaten(tokens, cursor, TokenKind::Comma);
    if separated {
        skip_moves(tokens, cursor);
        identifier_moves(tokens, next, "a schema name"@);
        identifier_is_clean(tokens, next, "a schema name"@);
        if let Ok((name, last)) = identifier(tokens, next, "a schema name"@) {
            more_schemas_are_clean(tokens, last, before.push(name));
        }
    }
}

proof fn node_is_clean(tokens: Seq<TokenModel>, cursor: Cursor)
    requires
        all_clean(tokens),
        all_tidy(cursor.pending),
    ensures
        node(tokens, cursor) matches Ok((found, next)) ==> all_tidy(next.pending)
            && found.schemas.len() > 0 && writable_node(found),
{
    let word = TokenKind::Keyword(Keyword::Node);
    let what = "`:` before the schema names"@;
    expected_is_clean(tokens, taken(cursor), word, "`node`"@);
    if let Ok((_, second)) = expected(tokens, taken(cursor), word, "`node`"@) {
        identifier_is_clean(tokens, second, "a node name"@);
        if let Ok((_, third)) = identifier(tokens, second, "a node name"@) {
            expected_is_clean(tokens, third, TokenKind::Colon, what);
            if let Ok((_, fourth)) = expected(tokens, third, TokenKind::Colon, what) {
                identifier_is_clean(tokens, fourth, "a schema name"@);
                if let Ok((first, fifth)) = identifier(tokens, fourth, "a schema name"@) {
                    more_schemas_are_clean(tokens, fifth, seq![first]);
                    if let Ok((_, sixth)) = more_schemas(tokens, fifth, seq![first]) {
                        record_is_clean(tokens, sixth, cursor.pending);
                    }
                }
            }
        }
    }
}

proof fn edge_is_clean(tokens: Seq<TokenModel>, cursor: Cursor)
    requires
        all_clean(tokens),
        all_tidy(cursor.pending),
    ensures
        edge(tokens, cursor) matches Ok((found, next)) ==> all_tidy(next.pending)
            && writable_edge(found),
{
    let word = TokenKind::Keyword(Keyword::Edge);
    let between = "`->` between the endpoints"@;
    let before = "`:` before a relation name"@;
    expected_is_clean(tokens, taken(cursor), word, "`edge`"@);
    if let Ok((_, second)) = expected(tokens, taken(cursor), word, "`edge`"@) {
        endpoint_is_clean(tokens, second);
        if let Ok((_, third)) = endpoint(tokens, second) {
            expected_is_clean(tokens, third, TokenKind::Arrow, between);
            if let Ok((_, fourth)) = expected(tokens, third, TokenKind::Arrow, between) {
                endpoint_is_clean(tokens, fourth);
                if let Ok((_, fifth)) = endpoint(tokens, fourth) {
                    expected_is_clean(tokens, fifth, TokenKind::Colon, before);
                    if let Ok((_, sixth)) = expected(tokens, fifth, TokenKind::Colon, before) {
                        identifier_is_clean(tokens, sixth, "a relation name"@);
                        if let Ok((_, seventh)) = identifier(tokens, sixth, "a relation name"@) {
                            record_is_clean(tokens, seventh, cursor.pending);
                        }
                    }
                }
            }
        }
    }
}

proof fn link_is_clean(tokens: Seq<TokenModel>, cursor: Cursor)
    requires
        all_clean(tokens),
        all_tidy(cursor.pending),
    ensures
        link(tokens, cursor) matches Ok((found, next)) ==> all_tidy(next.pending) && writable_link(
            found,
        ),
{
    let start = step(taken(cursor));
    quoted_is_clean(tokens, start, "a quoted link locator"@);
    if let Ok((_, second)) = quoted(tokens, start, "a quoted link locator"@) {
        skip_is_clean(tokens, second);
        let third = skip(tokens, second);
        identifier_is_clean(tokens, step(third), "a link alias"@);
        if kind(tokens, third) == TokenKind::Keyword(Keyword::As) {
            if let Ok((_, fourth)) = identifier(tokens, step(third), "a link alias"@) {
                remarks_are_clean(tokens, fourth, cursor.pending);
            }
        } else {
            remarks_are_clean(tokens, second, cursor.pending);
        }
    }
}

/// Whether links can be written.
spec fn fine_links(items: Seq<LinkDeclarationModel>) -> bool {
    forall|i: int| 0 <= i < items.len() ==> writable_link(#[trigger] items[i])
}

proof fn links_are_clean(
    tokens: Seq<TokenModel>,
    cursor: Cursor,
    before: Seq<LinkDeclarationModel>,
)
    requires
        all_clean(tokens),
        all_tidy(cursor.pending),
        fine_links(before),
    ensures
        links(tokens, cursor, before) matches Ok((found, next)) ==> all_tidy(next.pending)
            && fine_links(found),
    decreases tokens.len() - cursor.index,
{
    let at = skip(tokens, cursor);
    skip_is_clean(tokens, cursor);
    if kind(tokens, at) == TokenKind::LinkDirective {
        skip_moves(tokens, cursor);
        link_moves(tokens, at);
        link_is_clean(tokens, at);
        if let Ok((found, next)) = link(tokens, at) {
            links_are_clean(tokens, next, before.push(found));
        }
    }
}

/// Whether declarations can be written.
spec fn fine_declarations(all: Declarations) -> bool {
    &&& forall|i: int| 0 <= i < all.schemas.len() ==> writable_schema(#[trigger] all.schemas[i])
    &&& forall|i: int|
        0 <= i < all.nodes.len() ==> (#[trigger] all.nodes[i]).schemas.len() > 0 && writable_node(
            all.nodes[i],
        )
    &&& forall|i: int| 0 <= i < all.edges.len() ==> writable_edge(#[trigger] all.edges[i])
}

proof fn declarations_are_clean(tokens: Seq<TokenModel>, cursor: Cursor, before: Declarations)
    requires
        all_clean(tokens),
        all_tidy(cursor.pending),
        fine_declarations(before),
    ensures
        declarations(tokens, cursor, before) matches Ok((found, next)) ==> all_tidy(next.pending)
            && fine_declarations(found),
    decreases tokens.len() - cursor.index,
{
    let at = skip(tokens, cursor);
    skip_is_clean(tokens, cursor);
    skip_moves(tokens, cursor);
    schema_moves(tokens, at);
    node_moves(tokens, at);
    edge_moves(tokens, at);
    if kind(tokens, at) == TokenKind::Keyword(Keyword::Schema) {
        schema_is_clean(tokens, at);
        if let Ok((found, next)) = schema(tokens, at) {
            declarations_are_clean(
                tokens,
                next,
                Declarations {
                    schemas: before.schemas.push(found),
                    order: before.order.push(
                        super::DeclarationRef::Schema(before.schemas.len() as usize),
                    ),
                    ..before
                },
            );
        }
    } else if kind(tokens, at) == TokenKind::Keyword(Keyword::Node) {
        node_is_clean(tokens, at);
        if let Ok((found, next)) = node(tokens, at) {
            declarations_are_clean(
                tokens,
                next,
                Declarations {
                    nodes: before.nodes.push(found),
                    order: before.order.push(
                        super::DeclarationRef::Node(before.nodes.len() as usize),
                    ),
                    ..before
                },
            );
        }
    } else if kind(tokens, at) == TokenKind::Keyword(Keyword::Edge) {
        edge_is_clean(tokens, at);
        if let Ok((found, next)) = edge(tokens, at) {
            declarations_are_clean(
                tokens,
                next,
                Declarations {
                    edges: before.edges.push(found),
                    order: before.order.push(
                        super::DeclarationRef::Edge(before.edges.len() as usize),
                    ),
                    ..before
                },
            );
        }
    }
}

proof fn header_is_clean(tokens: Seq<TokenModel>)
    requires
        all_clean(tokens),
    ensures
        header(tokens) matches Ok(((_, comments), next)) ==> all_tidy(next.pending)
            && tidy_comments(comments),
{
    let start = Cursor { index: 0, pending: Seq::<CommentModel>::empty() };
    skip_is_clean(tokens, start);
    let first = skip(tokens, start);
    let what = "`@nost` as the first declaration"@;
    let number = "a language version number"@;
    expected_is_clean(tokens, taken(first), TokenKind::NostDirective, what);
    if let Ok((_, second)) = expected(tokens, taken(first), TokenKind::NostDirective, what) {
        expected_is_clean(tokens, second, TokenKind::IntegerLiteral, number);
        if let Ok((_, third)) = expected(tokens, second, TokenKind::IntegerLiteral, number) {
            remarks_are_clean(tokens, third, first.pending);
        }
    }
}

/// A file that was read can be written. Each of its nodes names a schema.
pub proof fn parsed_file_can_be_written(source: Seq<char>)
    ensures
        parsed(source) matches Ok(file) ==> writable(file) && forall|i: int|
            0 <= i < file.nodes.len() ==> (#[trigger] file.nodes[i]).schemas.len() > 0,
{
    lexed_is_clean(source, 0, true, Seq::empty());
    if let Ok(tokens) = tokens_of(source) {
        header_is_clean(tokens);
        if let Ok((_, second)) = header(tokens) {
            let none = Seq::<LinkDeclarationModel>::empty();
            links_are_clean(tokens, second, none);
            if let Ok((_, third)) = links(tokens, second, none) {
                let nothing = Declarations {
                    schemas: Seq::empty(),
                    nodes: Seq::empty(),
                    edges: Seq::empty(),
                    order: Seq::empty(),
                };
                declarations_are_clean(tokens, third, nothing);
                if let Ok((_, fourth)) = declarations(tokens, third, nothing) {
                    skip_is_clean(tokens, fourth);
                }
            }
        }
    }
}

/// Formatting a source that parses is idempotent: the formatted text parses again, and
/// formatting that gives the same text, character for character. It says the same as the
/// source did.
pub proof fn formatted_source_is_stable(source: Seq<char>)
    ensures
        parsed(source) matches Ok(file) ==> (parsed(formatted(file)) matches Ok(again) && formatted(
            again,
        ) == formatted(file) && same_file(again, file)),
{
    parsed_file_can_be_written(source);
    if let Ok(file) = parsed(source) {
        formatting_twice_is_formatting_once(file);
        formatted_file_reads_back(file);
    }
}

} // verus!
