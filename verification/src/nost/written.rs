//! What the formatter writes, token by token, and that the lexer reads it back.

use super::format::comment_text;
use super::format::escaped_char;
use super::format::escaped_part;
use super::format::literal;
use super::format::upper_hex;
use super::format::upper_hex_digit;
use super::lexer::bytes_piece;
use super::lexer::comment_close;
use super::lexer::digit_end;
use super::lexer::directive_piece;
use super::lexer::escaped;
use super::lexer::exponent_digits;
use super::lexer::fraction_part;
use super::lexer::has_exponent;
use super::lexer::hex_bytes;
use super::lexer::hex_end;
use super::lexer::hex_number;
use super::lexer::hex_value;
use super::lexer::hexadecimal;
use super::lexer::lexed;
use super::lexer::line_end;
use super::lexer::number_piece;
use super::lexer::peek;
use super::lexer::piece_at;
use super::lexer::pieces_are_bounded;
use super::lexer::string_rest;
use super::lexer::token_of;
use super::lexer::white_end;
use super::lexer::word_end;
use super::lexer::word_piece;
use super::lexer::Keyword;
use super::lexer::Piece;
use super::lexer::TokenKind;
use super::lexer::TokenModel;
use super::lexer::TriviaKind;
use super::CommentModel;
use crate::float::magnitude;
use crate::float::negative;
use crate::number::all_digits;
use crate::number::digits_of;
use crate::number::digits_read_back;
use crate::number::is_digit;
use crate::number::shown;
use crate::shortest::layout;
use crate::shortest::shortest_of;
use crate::shortest::shown_double;
use crate::shortest::zeros;
use crate::unicode::control;
use crate::unicode::space_end;
use crate::unicode::space_start;
use crate::unicode::trimmed;
use crate::unicode::white_space;
use crate::unicode::xid_continue;
use crate::unicode::xid_start;
use vstd::prelude::*;

verus! {

// -- Parts -------------------------------------------------------------------------

/// A text as tokens with the white space in front of each.
pub enum Parts {
    /// The end of the text.
    End {
        /// The white space in front of it.
        gap: Seq<char>,
    },
    /// A token.
    Token {
        /// The white space in front of it.
        gap: Seq<char>,
        /// What it is.
        kind: TokenKind,
        /// What it says.
        text: Seq<char>,
        /// The bytes it stands for.
        bytes: Seq<u8>,
        /// How it is spelled.
        spelling: Seq<char>,
        /// What follows it.
        rest: Box<Parts>,
    },
}

/// A token without white space in front of it.
pub open spec fn token(
    kind: TokenKind,
    text: Seq<char>,
    bytes: Seq<u8>,
    spelling: Seq<char>,
    rest: Parts,
) -> Parts {
    Parts::Token { gap: Seq::empty(), kind, text, bytes, spelling, rest: Box::new(rest) }
}

/// The parts with more white space in front.
pub open spec fn behind(gap: Seq<char>, parts: Parts) -> Parts {
    match parts {
        Parts::End { gap: more } => Parts::End { gap: gap + more },
        Parts::Token { gap: more, kind, text, bytes, spelling, rest } => Parts::Token {
            gap: gap + more,
            kind,
            text,
            bytes,
            spelling,
            rest,
        },
    }
}

/// The text that parts make up.
pub open spec fn rendered(parts: Parts) -> Seq<char>
    decreases parts,
{
    match parts {
        Parts::End { gap } => gap,
        Parts::Token { gap, spelling, rest, .. } => gap + spelling + rendered(*rest),
    }
}

/// White space in front of parts stands in front of their text.
pub proof fn rendered_behind(gap: Seq<char>, parts: Parts)
    ensures
        rendered(behind(gap, parts)) == gap + rendered(parts),
{
    match parts {
        Parts::End { .. } => {},
        Parts::Token { gap: more, spelling, rest, .. } => {
            assert(gap + more + spelling + rendered(*rest) =~= gap + (more + spelling + rendered(
                *rest,
            )));
        },
    }
}

/// Whether a text stands at an index of a source.
pub open spec fn stands_at(source: Seq<char>, at: int, text: Seq<char>) -> bool {
    0 <= at && at + text.len() <= source.len() && source.subrange(at, at + text.len()) == text
}

/// Whether a spelling is read as one token wherever it stands in front of `next`.
#[verifier::opaque]
pub open spec fn reads(
    kind: TokenKind,
    text: Seq<char>,
    bytes: Seq<u8>,
    spelling: Seq<char>,
    next: Option<char>,
) -> bool {
    &&& spelling.len() > 0
    &&& !white_space(spelling[0])
    &&& forall|source: Seq<char>, at: int|
        stands_at(source, at, spelling) && peek(source, at + spelling.len()) == next ==> (
        #[trigger] piece_at(source, at)) == Ok::<Piece, super::lexer::Fault>(
            Piece { kind, text, bytes, next: at + spelling.len() },
        )
}

/// Whether a text is white space.
pub open spec fn blank(text: Seq<char>) -> bool {
    forall|i: int| 0 <= i < text.len() ==> white_space(#[trigger] text[i])
}

/// Whether each token is read as itself where it stands.
pub open spec fn legible(parts: Parts) -> bool
    decreases parts,
{
    match parts {
        Parts::End { gap } => blank(gap),
        Parts::Token { gap, kind, text, bytes, spelling, rest } => blank(gap) && reads(
            kind,
            text,
            bytes,
            spelling,
            peek(rendered(*rest), 0),
        ) && !(kind is Trivia && kind->Trivia_0 is Whitespace) && legible(*rest),
    }
}

/// White space in front of parts keeps them legible.
pub proof fn legible_behind(gap: Seq<char>, parts: Parts)
    requires
        legible(parts),
        blank(gap),
    ensures
        legible(behind(gap, parts)),
{
}

// -- Lexing ------------------------------------------------------------------------

/// The index behind the white space that may stand at an index of the tokens.
pub open spec fn past_white(tokens: Seq<TokenModel>, index: int) -> int
    decreases tokens.len() - index,
{
    if 0 <= index < tokens.len() && tokens[index].kind == TokenKind::Trivia(
        TriviaKind::Whitespace,
    ) {
        past_white(tokens, index + 1)
    } else {
        index
    }
}

/// The white space in front of parts.
pub open spec fn gap_of(parts: Parts) -> Seq<char> {
    match parts {
        Parts::End { gap } => gap,
        Parts::Token { gap, .. } => gap,
    }
}

/// Whether the tokens from an index on are those of the parts, the comments among them with
/// what they say of their line. `own` says whether nothing but white space stands before
/// them on their line.
pub open spec fn spell(tokens: Seq<TokenModel>, index: int, own: bool, parts: Parts) -> bool
    decreases parts,
{
    let at = past_white(tokens, index);
    &&& 0 <= index <= at < tokens.len()
    &&& match parts {
        Parts::End { .. } => tokens[at].kind == TokenKind::Eof,
        Parts::Token { gap, kind, text, bytes, rest, .. } => {
            &&& kind != TokenKind::Trivia(TriviaKind::Whitespace)
            &&& tokens[at].kind == kind
            &&& tokens[at].text == text
            &&& tokens[at].bytes == bytes
            &&& kind is Trivia ==> tokens[at].on_own_line == (own || gap.contains('\n'))
            &&& gap_of(*rest).len() == 0 ==> past_white(tokens, at + 1) == at + 1
            &&& spell(tokens, at + 1, false, *rest)
        },
    }
}

/// Where a run of white space ends.
proof fn white_run(source: Seq<char>, from: int, to: int)
    requires
        0 <= from <= to <= source.len(),
        forall|k: int| from <= k < to ==> white_space(#[trigger] source[k]),
        to < source.len() ==> !white_space(source[to]),
    ensures
        white_end(source, from) == to,
    decreases to - from,
{
    if from < to {
        white_run(source, from + 1, to);
    }
}

/// Where the pieces of the text behind an index stand.
proof fn pieces_stand(
    source: Seq<char>,
    at: int,
    gap: Seq<char>,
    spelling: Seq<char>,
    rest: Seq<char>,
)
    requires
        0 <= at <= source.len(),
        source.subrange(at, source.len() as int) == gap + spelling + rest,
    ensures
        at + gap.len() + spelling.len() + rest.len() == source.len(),
        source.subrange(at, at + gap.len()) == gap,
        stands_at(source, at + gap.len(), spelling),
        source.subrange(at + gap.len() + spelling.len(), source.len() as int) == rest,
        peek(source, at + gap.len() + spelling.len()) == peek(rest, 0),
{
    let all = gap + spelling + rest;
    let tail = source.subrange(at, source.len() as int);
    assert(tail.len() == all.len());
    assert(all.subrange(0, gap.len() as int) =~= gap);
    assert(all.subrange(gap.len() as int, (gap.len() + spelling.len()) as int) =~= spelling);
    assert(all.subrange((gap.len() + spelling.len()) as int, all.len() as int) =~= rest);
    assert(source.subrange(at, at + gap.len()) =~= tail.subrange(0, gap.len() as int));
    assert(source.subrange(at + gap.len(), at + gap.len() + spelling.len()) =~= tail.subrange(
        gap.len() as int,
        (gap.len() + spelling.len()) as int,
    ));
    assert(source.subrange(at + gap.len() + spelling.len(), source.len() as int) =~= tail.subrange(
        (gap.len() + spelling.len()) as int,
        all.len() as int,
    ));
    if rest.len() > 0 {
        assert(source.subrange(at + gap.len() + spelling.len(), source.len() as int)[0]
            == source[at + gap.len() + spelling.len()]);
    }
}

/// The token behind the white space at an index.
proof fn white_is_past(tokens: Seq<TokenModel>, index: int, here: int)
    requires
        0 <= index <= here < tokens.len(),
        here <= index + 1,
        index < here ==> tokens[index].kind == TokenKind::Trivia(TriviaKind::Whitespace),
        tokens[here].kind != TokenKind::Trivia(TriviaKind::Whitespace),
    ensures
        past_white(tokens, index) == here,
{
    assert(past_white(tokens, here) == here);
}

/// The lexer passes over white space.
proof fn gap_is_lexed(
    source: Seq<char>,
    at: int,
    own: bool,
    before: Seq<TokenModel>,
    gap: Seq<char>,
) -> (item: TokenModel)
    requires
        0 <= at,
        0 < gap.len(),
        at + gap.len() <= source.len(),
        source.subrange(at, at + gap.len()) == gap,
        blank(gap),
        at + gap.len() < source.len() ==> !white_space(source[at + gap.len()]),
    ensures
        item.kind == TokenKind::Trivia(TriviaKind::Whitespace),
        lexed(source, at, own, before) == lexed(
            source,
            at + gap.len(),
            own || gap.contains('\n'),
            before.push(item),
        ),
{
    let start = at + gap.len();
    assert forall|k: int| at <= k < start implies white_space(#[trigger] source[k]) by {
        assert(source.subrange(at, start)[k - at] == gap[k - at]);
    }
    white_run(source, at, start);
    assert(white_space(source[at]));
    pieces_are_bounded(source, at);
    let found = piece_at(source, at)->Ok_0;
    let item = token_of(source, at, found, own);
    assert(item.kind == TokenKind::Trivia(TriviaKind::Whitespace));
    assert(lexed(source, at, own, before) == lexed(
        source,
        start,
        own || gap.contains('\n'),
        before.push(item),
    ));
    item
}

/// The lexer reads legible parts as their tokens.
pub proof fn parts_are_lexed(
    source: Seq<char>,
    at: int,
    own: bool,
    before: Seq<TokenModel>,
    parts: Parts,
)
    requires
        0 <= at <= source.len(),
        source.subrange(at, source.len() as int) == rendered(parts),
        legible(parts),
    ensures
        lexed(source, at, own, before) matches Ok(tokens) && before.len() < tokens.len() && (
        forall|k: int| 0 <= k < before.len() ==> tokens[k] == before[k]) && spell(
            tokens,
            before.len() as int,
            own,
            parts,
        ) && (gap_of(parts).len() == 0 ==> past_white(tokens, before.len() as int) == before.len()),
    decreases parts,
{
    reveal(reads);
    let (gap, spelling, rest) = match parts {
        Parts::End { gap } => (gap, Seq::<char>::empty(), Seq::<char>::empty()),
        Parts::Token { gap, spelling, rest, .. } => (gap, spelling, rendered(*rest)),
    };
    assert(rendered(parts) =~= gap + spelling + rest);
    pieces_stand(source, at, gap, spelling, rest);
    let start = at + gap.len();
    if spelling.len() > 0 {
        assert(source.subrange(start, start + spelling.len())[0] == source[start]);
    }
    let own2 = own || gap.contains('\n');
    let before2 = if gap.len() == 0 {
        before
    } else {
        let item = gap_is_lexed(source, at, own, before, gap);
        before.push(item)
    };
    let index = before.len() as int;
    let here = before2.len() as int;
    assert(lexed(source, at, own, before) == lexed(source, start, own2, before2));
    match parts {
        Parts::End { .. } => {
            let tokens = lexed(source, start, own2, before2)->Ok_0;
            assert(tokens[here].kind == TokenKind::Eof);
            white_is_past(tokens, index, here);
        },
        Parts::Token { kind, text, bytes, rest, .. } => {
            let next = start + spelling.len();
            let found = piece_at(source, start)->Ok_0;
            assert(found == Piece { kind, text, bytes, next });
            pieces_are_bounded(source, start);
            let before3 = before2.push(token_of(source, start, found, own2));
            assert(lexed(source, start, own2, before2) == lexed(source, next, false, before3));
            parts_are_lexed(source, next, false, before3, *rest);
            let tokens = lexed(source, next, false, before3)->Ok_0;
            assert(tokens[here] == before3[here]);
            if gap.len() > 0 {
                assert(tokens[index] == before3[index]);
            }
            white_is_past(tokens, index, here);
            assert forall|k: int| 0 <= k < before.len() implies tokens[k] == before[k] by {
                assert(tokens[k] == before3[k]);
            }
        },
    }
}

// -- Single tokens -----------------------------------------------------------------

/// Whether a name or number may stand in front of a character, so that it ends there.
pub open spec fn stops(next: Option<char>) -> bool {
    match next {
        None => true,
        Some(c) => c == ' ' || c == '\n' || c == ',' || c == ':' || c == '?' || c == '(' || c
            == ')' || c == '[' || c == ']',
    }
}

/// What stands at an index of a text that stands in a source.
proof fn stands_index(source: Seq<char>, at: int, text: Seq<char>, k: int)
    requires
        stands_at(source, at, text),
        0 <= k < text.len(),
    ensures
        source[at + k] == text[k],
        peek(source, at + k) == Some(text[k]),
{
    assert(source.subrange(at, at + text.len())[k] == source[at + k]);
}

/// A part of a text that stands in a source stands there too.
proof fn stands_part(source: Seq<char>, at: int, text: Seq<char>, from: int, to: int)
    requires
        stands_at(source, at, text),
        0 <= from <= to <= text.len(),
    ensures
        source.subrange(at + from, at + to) == text.subrange(from, to),
{
    assert(source.subrange(at + from, at + to) =~= source.subrange(at, at + text.len()).subrange(
        from,
        to,
    ));
}

/// Where the characters of a name end.
proof fn word_run(source: Seq<char>, from: int, to: int)
    requires
        0 <= from <= to <= source.len(),
        forall|k: int| from <= k < to ==> xid_continue(#[trigger] source[k]),
        to < source.len() ==> !xid_continue(source[to]),
    ensures
        word_end(source, from) == to,
    decreases to - from,
{
    if from < to {
        word_run(source, from + 1, to);
    }
}

/// Where a line ends.
proof fn line_run(source: Seq<char>, from: int, to: int)
    requires
        0 <= from <= to <= source.len(),
        forall|k: int| from <= k < to ==> #[trigger] source[k] != '\n',
        to < source.len() ==> source[to] == '\n',
    ensures
        line_end(source, from) == to,
    decreases to - from,
{
    if from < to {
        line_run(source, from + 1, to);
    }
}

/// Where hexadecimal digits end.
proof fn hex_run(source: Seq<char>, from: int, to: int)
    requires
        0 <= from <= to < source.len(),
        forall|k: int| from <= k < to ==> hexadecimal(#[trigger] source[k]),
        !hexadecimal(source[to]),
    ensures
        hex_end(source, from) == to,
    decreases to - from,
{
    if from < to {
        hex_run(source, from + 1, to);
    }
}

/// Whether a text is spelled like a word: a start, then what continues it.
pub open spec fn wordy(text: Seq<char>) -> bool {
    &&& text.len() > 0
    &&& xid_start(text[0]) || text[0] == '_'
    &&& !white_space(text[0])
    &&& forall|i: int| 1 <= i < text.len() ==> xid_continue(#[trigger] text[i])
}

/// What a word is.
pub open spec fn word_kind(text: Seq<char>) -> TokenKind {
    match Keyword::spelled(text) {
        Some(keyword) => TokenKind::Keyword(keyword),
        None => TokenKind::Identifier,
    }
}

/// A word is read as itself.
pub proof fn word_reads(text: Seq<char>, next: Option<char>)
    requires
        wordy(text),
        stops(next),
    ensures
        reads(word_kind(text), text, Seq::empty(), text, next),
{
    reveal(reads);
    assert forall|source: Seq<char>, at: int|
        stands_at(source, at, text) && peek(source, at + text.len()) == next implies (
    #[trigger] piece_at(source, at)) == Ok::<Piece, super::lexer::Fault>(
        Piece { kind: word_kind(text), text, bytes: Seq::empty(), next: at + text.len() },
    ) by {
        let end = at + text.len();
        assert forall|k: int| at + 1 <= k < end implies xid_continue(#[trigger] source[k]) by {
            stands_index(source, at, text, k - at);
            assert(xid_continue(text[k - at]));
        }
        stands_index(source, at, text, 0);
        word_run(source, at + 1, end);
        assert(word_piece(source, at) == Ok::<Piece, super::lexer::Fault>(
            Piece { kind: word_kind(text), text, bytes: Seq::empty(), next: end },
        ));
    }
}

/// The sign a kind of token is spelled with, and what the token says.
pub open spec fn sign_of(kind: TokenKind) -> Option<(Seq<char>, Seq<char>)> {
    match kind {
        TokenKind::LeftBrace => Some((seq!['{'], seq!['{'])),
        TokenKind::RightBrace => Some((seq!['}'], seq!['}'])),
        TokenKind::LeftParen => Some((seq!['('], seq!['('])),
        TokenKind::RightParen => Some((seq![')'], seq![')'])),
        TokenKind::LeftBracket => Some((seq!['['], seq!['['])),
        TokenKind::RightBracket => Some((seq![']'], seq![']'])),
        TokenKind::Comma => Some((seq![','], seq![','])),
        TokenKind::Question => Some((seq!['?'], seq!['?'])),
        TokenKind::Colon => Some((seq![':'], Seq::empty())),
        TokenKind::ColonColon => Some((seq![':', ':'], Seq::empty())),
        TokenKind::Arrow => Some((seq!['-', '>'], "->"@)),
        _ => None,
    }
}

/// A sign is read as itself.
pub proof fn sign_reads(kind: TokenKind, next: Option<char>)
    requires
        sign_of(kind) is Some,
        kind == TokenKind::Colon ==> next != Some(':'),
    ensures
        reads(kind, (sign_of(kind)->0).1, Seq::empty(), (sign_of(kind)->0).0, next),
{
    reveal(reads);
    let spelling = (sign_of(kind)->0).0;
    let text = (sign_of(kind)->0).1;
    assert forall|source: Seq<char>, at: int|
        stands_at(source, at, spelling) && peek(source, at + spelling.len()) == next implies (
    #[trigger] piece_at(source, at)) == Ok::<Piece, super::lexer::Fault>(
        Piece { kind, text, bytes: Seq::empty(), next: at + spelling.len() },
    ) by {
        stands_index(source, at, spelling, 0);
        if spelling.len() > 1 {
            stands_index(source, at, spelling, 1);
        }
    }
}

/// The word of a directive.
pub open spec fn directive_of(kind: TokenKind) -> Option<Seq<char>> {
    match kind {
        TokenKind::NostDirective => Some("nost"@),
        TokenKind::LinkDirective => Some("link"@),
        TokenKind::ByDirective => Some("by"@),
        TokenKind::EvidenceDirective => Some("evidence"@),
        _ => None,
    }
}

/// A directive is read as itself.
pub proof fn directive_reads(kind: TokenKind, next: Option<char>)
    requires
        directive_of(kind) is Some,
        stops(next),
    ensures
        reads(kind, directive_of(kind)->0, Seq::empty(), seq!['@'] + directive_of(kind)->0, next),
{
    reveal(reads);
    reveal_strlit("nost");
    reveal_strlit("link");
    reveal_strlit("by");
    reveal_strlit("evidence");
    let text = directive_of(kind)->0;
    let spelling = seq!['@'] + text;
    assert forall|i: int| 0 <= i < text.len() implies xid_continue(#[trigger] text[i]) by {}
    assert forall|source: Seq<char>, at: int|
        stands_at(source, at, spelling) && peek(source, at + spelling.len()) == next implies (
    #[trigger] piece_at(source, at)) == Ok::<Piece, super::lexer::Fault>(
        Piece { kind, text, bytes: Seq::empty(), next: at + spelling.len() },
    ) by {
        let end = at + spelling.len();
        assert forall|k: int| at + 1 <= k < end implies xid_continue(#[trigger] source[k]) by {
            stands_index(source, at, spelling, k - at);
            assert(xid_continue(text[k - at - 1]));
        }
        stands_index(source, at, spelling, 0);
        word_run(source, at + 1, end);
        stands_part(source, at, spelling, 1, spelling.len() as int);
        assert(spelling.subrange(1, spelling.len() as int) =~= text);
        assert("nost"@[0] != "link"@[0] && "nost"@.len() != "by"@.len() && "nost"@.len()
            != "evidence"@.len() && "link"@.len() != "by"@.len() && "link"@.len()
            != "evidence"@.len() && "by"@.len() != "evidence"@.len());
        assert(directive_piece(source, at) == Ok::<Piece, super::lexer::Fault>(
            Piece { kind, text, bytes: Seq::empty(), next: end },
        ));
    }
}

/// The literal of a text from a character on, with its closing quote.
spec fn literal_tail(text: Seq<char>, from: int) -> Seq<char>
    decreases text.len() - from,
{
    if from < 0 || from >= text.len() {
        seq!['"']
    } else {
        escaped_char(text[from]) + literal_tail(text, from + 1)
    }
}

/// A literal is what comes before a character and what comes from it on.
proof fn literal_splits(text: Seq<char>, from: int)
    requires
        0 <= from <= text.len(),
    ensures
        escaped_part(text, from) + literal_tail(text, from) == escaped_part(
            text,
            text.len() as int,
        ) + seq!['"'],
    decreases text.len() - from,
{
    if from < text.len() {
        literal_splits(text, from + 1);
        assert(escaped_part(text, from) + literal_tail(text, from) =~= escaped_part(text, from + 1)
            + literal_tail(text, from + 1));
    }
}

/// What a hexadecimal digit is worth.
proof fn hex_digit(value: int)
    requires
        0 <= value < 16,
    ensures
        hexadecimal(upper_hex_digit(value)),
        hex_value(upper_hex_digit(value)) == value,
{
}

/// A control character is escaped by at most two digits that are worth it.
proof fn control_digits(number: nat)
    requires
        number < 256,
    ensures
        0 < upper_hex(number).len() <= 2,
        forall|i: int| 0 <= i < upper_hex(number).len() ==> hexadecimal(#[trigger] upper_hex(number)[i]),
        hex_number(upper_hex(number)) == number,
{
    reveal_with_fuel(upper_hex, 3);
    reveal_with_fuel(hex_number, 3);
    hex_digit((number % 16) as int);
    if number < 16 {
        hex_digit(number as int);
        assert(upper_hex(number).drop_last() =~= Seq::<char>::empty());
    } else {
        hex_digit((number / 16) as int);
        assert(upper_hex(number).drop_last() =~= seq![upper_hex_digit((number / 16) as int)]);
        assert(upper_hex(number).drop_last().drop_last() =~= Seq::<char>::empty());
    }
}

/// An escape is read as the character it stands for.
proof fn escape_reads(source: Seq<char>, at: int, c: char)
    requires
        stands_at(source, at, escaped_char(c)),
        c == '"' || c == '\\' || c == '\n' || c == '\r' || c == '\t' || control(c),
    ensures
        source[at] == '\\',
        escaped(source, at + 1) == Ok::<(char, int), super::lexer::Fault>(
            (c, at + escaped_char(c).len()),
        ),
{
    let text = escaped_char(c);
    stands_index(source, at, text, 0);
    stands_index(source, at, text, 1);
    if c != '"' && c != '\\' && c != '\n' && c != '\r' && c != '\t' {
        let digits = upper_hex(c as nat);
        control_digits(c as nat);
        stands_index(source, at, text, 2);
        let end = at + 3 + digits.len();
        assert forall|k: int| at + 3 <= k < end implies hexadecimal(#[trigger] source[k]) by {
            stands_index(source, at, text, k - at);
            assert(text[k - at] == digits[k - at - 3]);
        }
        stands_index(source, at, text, end - at);
        hex_run(source, at + 3, end);
        stands_part(source, at, text, 3, end - at);
        assert(text.subrange(3, end - at) =~= digits);
    }
}

/// The rest of a literal is read as the rest of its text.
proof fn literal_rest_reads(source: Seq<char>, at: int, text: Seq<char>, from: int)
    requires
        0 <= from <= text.len(),
        stands_at(source, at, literal_tail(text, from)),
    ensures
        string_rest(source, at, text.take(from)) == Ok::<(Seq<char>, int), super::lexer::Fault>(
            (text, at + literal_tail(text, from).len()),
        ),
    decreases text.len() - from,
{
    let tail = literal_tail(text, from);
    if from == text.len() {
        stands_index(source, at, tail, 0);
        assert(text.take(from) =~= text);
    } else {
        let c = text[from];
        let first = escaped_char(c);
        let rest = literal_tail(text, from + 1);
        stands_part(source, at, tail, 0, first.len() as int);
        stands_part(source, at, tail, first.len() as int, tail.len() as int);
        assert(tail.subrange(0, first.len() as int) =~= first);
        assert(tail.subrange(first.len() as int, tail.len() as int) =~= rest);
        assert(stands_at(source, at, first));
        assert(stands_at(source, at + first.len(), rest));
        literal_rest_reads(source, at + first.len(), text, from + 1);
        assert(text.take(from).push(c) =~= text.take(from + 1));
        stands_index(source, at, first, 0);
        if c == '"' || c == '\\' || c == '\n' || c == '\r' || c == '\t' || control(c) {
            escape_reads(source, at, c);
        }
    }
}

/// A string literal is read as its text.
pub proof fn quote_reads(text: Seq<char>, next: Option<char>)
    ensures
        reads(TokenKind::StringLiteral, text, Seq::empty(), literal(text), next),
{
    reveal(reads);
    let spelling = literal(text);
    literal_splits(text, 0);
    assert(literal_tail(text, 0) =~= escaped_part(text, text.len() as int) + seq!['"']);
    assert(spelling =~= seq!['"'] + literal_tail(text, 0));
    assert forall|source: Seq<char>, at: int|
        stands_at(source, at, spelling) && peek(source, at + spelling.len()) == next implies (
    #[trigger] piece_at(source, at)) == Ok::<Piece, super::lexer::Fault>(
        Piece {
            kind: TokenKind::StringLiteral,
            text,
            bytes: Seq::empty(),
            next: at + spelling.len(),
        },
    ) by {
        stands_index(source, at, spelling, 0);
        stands_part(source, at, spelling, 1, spelling.len() as int);
        assert(spelling.subrange(1, spelling.len() as int) =~= literal_tail(text, 0));
        literal_rest_reads(source, at + 1, text, 0);
        assert(text.take(0) =~= Seq::<char>::empty());
    }
}

/// How a tagged literal is spelled.
pub open spec fn tagged(tag: Seq<char>, text: Seq<char>) -> Seq<char> {
    tag + seq!['"'] + text + seq!['"']
}

/// Where the tag of a tagged literal ends, and what stands behind its quote.
proof fn tag_stands(source: Seq<char>, at: int, tag: Seq<char>, text: Seq<char>)
    requires
        stands_at(source, at, tagged(tag, text)),
        wordy(tag),
    ensures
        word_end(source, at + 1) == at + tag.len(),
        source.subrange(at, at + tag.len()) == tag,
        source[at] == tag[0],
        peek(source, at + tag.len()) == Some('"'),
        stands_at(source, at + tag.len() + 1, text + seq!['"']),
{
    let spelling = tagged(tag, text);
    let end = at + tag.len();
    assert forall|k: int| at <= k < end implies #[trigger] source[k] == tag[k - at] by {
        stands_index(source, at, spelling, k - at);
    }
    stands_index(source, at, spelling, 0);
    stands_index(source, at, spelling, tag.len() as int);
    assert forall|k: int| at + 1 <= k < end implies xid_continue(#[trigger] source[k]) by {
        assert(xid_continue(tag[k - at]));
    }
    word_run(source, at + 1, end);
    stands_part(source, at, spelling, 0, tag.len() as int);
    assert(spelling.subrange(0, tag.len() as int) =~= tag);
    stands_part(source, at, spelling, tag.len() as int + 1, spelling.len() as int);
    assert(spelling.subrange(tag.len() as int + 1, spelling.len() as int) =~= text + seq!['"']);
}

/// A date and time literal is read as its text.
pub proof fn datetime_reads(text: Seq<char>, next: Option<char>)
    ensures
        reads(
            TokenKind::DateTimeLiteral,
            text,
            Seq::empty(),
            "datetime"@ + literal(text),
            next,
        ),
{
    reveal(reads);
    reveal_strlit("datetime");
    reveal_strlit("bytes");
    let tag = "datetime"@;
    let inside = escaped_part(text, text.len() as int);
    let spelling = tag + literal(text);
    assert(spelling =~= tagged(tag, inside));
    literal_splits(text, 0);
    assert(literal_tail(text, 0) =~= inside + seq!['"']);
    assert(wordy(tag));
    assert forall|source: Seq<char>, at: int|
        stands_at(source, at, spelling) && peek(source, at + spelling.len()) == next implies (
    #[trigger] piece_at(source, at)) == Ok::<Piece, super::lexer::Fault>(
        Piece {
            kind: TokenKind::DateTimeLiteral,
            text,
            bytes: Seq::empty(),
            next: at + spelling.len(),
        },
    ) by {
        tag_stands(source, at, tag, inside);
        literal_rest_reads(source, at + tag.len() + 1, text, 0);
        assert(text.take(0) =~= Seq::<char>::empty());
        assert(tag.len() != "bytes"@.len());
    }
}

/// Whether a text is made of pairs of hexadecimal digits.
pub open spec fn hex_pairs(text: Seq<char>) -> bool {
    text.len() % 2 == 0 && forall|i: int| 0 <= i < text.len() ==> hexadecimal(#[trigger] text[i])
}

/// A bytes literal is read as its digits and the bytes they stand for.
pub proof fn bytes_reads(digits: Seq<char>, next: Option<char>)
    requires
        hex_pairs(digits),
    ensures
        reads(
            TokenKind::BytesLiteral,
            digits,
            hex_bytes(digits),
            tagged("bytes"@, digits),
            next,
        ),
{
    reveal(reads);
    reveal_strlit("bytes");
    let tag = "bytes"@;
    let spelling = tagged(tag, digits);
    assert(wordy(tag));
    assert forall|source: Seq<char>, at: int|
        stands_at(source, at, spelling) && peek(source, at + spelling.len()) == next implies (
    #[trigger] piece_at(source, at)) == Ok::<Piece, super::lexer::Fault>(
        Piece {
            kind: TokenKind::BytesLiteral,
            text: digits,
            bytes: hex_bytes(digits),
            next: at + spelling.len(),
        },
    ) by {
        tag_stands(source, at, tag, digits);
        let first = at + tag.len() + 1;
        let inside = digits + seq!['"'];
        assert forall|k: int| first <= k < first + digits.len() implies hexadecimal(
            #[trigger] source[k],
        ) by {
            stands_index(source, first, inside, k - first);
            assert(hexadecimal(digits[k - first]));
        }
        stands_index(source, first, inside, digits.len() as int);
        hex_run(source, first, first + digits.len());
        stands_part(source, first, inside, 0, digits.len() as int);
        assert(inside.subrange(0, digits.len() as int) =~= digits);
        assert(bytes_piece(source, at + tag.len()) == Ok::<Piece, super::lexer::Fault>(
            Piece {
                kind: TokenKind::BytesLiteral,
                text: digits,
                bytes: hex_bytes(digits),
                next: at + spelling.len(),
            },
        ));
    }
}

// -- Comments ----------------------------------------------------------------------

/// Whether a comment can be written: a block comment does not close itself, and a line
/// comment is one line without white space at its ends.
pub open spec fn tidy(comment: CommentModel) -> bool {
    let text = comment.text;
    if comment.block {
        forall|i: int| 0 <= i < text.len() - 1 ==> !(#[trigger] text[i] == '*' && text[i + 1] == '/')
    } else {
        &&& forall|i: int| 0 <= i < text.len() ==> #[trigger] text[i] != '\n'
        &&& text.len() > 0 ==> !white_space(text[0]) && !white_space(text[text.len() - 1])
    }
}

/// What a comment is.
pub open spec fn comment_kind(comment: CommentModel) -> TokenKind {
    if comment.block {
        TokenKind::Trivia(TriviaKind::BlockComment)
    } else {
        TokenKind::Trivia(TriviaKind::LineComment)
    }
}

/// Where a block comment closes.
proof fn close_run(source: Seq<char>, from: int, to: int)
    requires
        0 <= from <= to,
        to + 1 < source.len(),
        source[to] == '*' && source[to + 1] == '/',
        forall|k: int| from <= k < to ==> !(#[trigger] source[k] == '*' && source[k + 1] == '/'),
    ensures
        comment_close(source, from) == Some(to),
    decreases to - from,
{
    if from < to {
        close_run(source, from + 1, to);
    }
}

/// A comment is read as itself, a line comment in front of the end of its line.
pub proof fn comment_reads(comment: CommentModel, next: Option<char>)
    requires
        tidy(comment),
        !comment.block ==> next == Some('\n') || next is None,
    ensures
        reads(comment_kind(comment), comment.text, Seq::empty(), comment_text(comment), next),
{
    reveal(reads);
    reveal_strlit("/*");
    reveal_strlit("*/");
    reveal_strlit("//");
    reveal_strlit("// ");
    let text = comment.text;
    let spelling = comment_text(comment);
    let kind = comment_kind(comment);
    assert forall|source: Seq<char>, at: int|
        stands_at(source, at, spelling) && peek(source, at + spelling.len()) == next implies (
    #[trigger] piece_at(source, at)) == Ok::<Piece, super::lexer::Fault>(
        Piece { kind, text, bytes: Seq::empty(), next: at + spelling.len() },
    ) by {
        stands_index(source, at, spelling, 0);
        stands_index(source, at, spelling, 1);
        let end = at + spelling.len();
        if comment.block {
            let close = at + 2 + text.len();
            stands_index(source, at, spelling, 2 + text.len() as int);
            stands_index(source, at, spelling, 3 + text.len() as int);
            assert forall|k: int| at + 2 <= k < close implies !(#[trigger] source[k] == '*'
                && source[k + 1] == '/') by {
                let i = k - at - 2;
                stands_index(source, at, spelling, k - at);
                stands_index(source, at, spelling, k + 1 - at);
                assert(source[k] == text[i]);
                if i < text.len() - 1 {
                    assert(source[k + 1] == text[i + 1]);
                }
            }
            close_run(source, at + 2, close);
            stands_part(source, at, spelling, 2, 2 + text.len() as int);
            assert(spelling.subrange(2, 2 + text.len() as int) =~= text);
        } else {
            assert forall|k: int| at + 2 <= k < end implies #[trigger] source[k] != '\n' by {
                stands_index(source, at, spelling, k - at);
                if k > at + 2 {
                    assert(spelling[k - at] == text[k - at - 3]);
                }
            }
            line_run(source, at + 2, end);
            stands_part(source, at, spelling, 2, spelling.len() as int);
            let inner = spelling.subrange(2, spelling.len() as int);
            if text.len() == 0 {
                assert(inner =~= Seq::<char>::empty());
                assert(trimmed(inner) =~= text);
            } else {
                let n = inner.len() as int;
                assert(inner =~= seq![' '] + text);
                reveal_with_fuel(space_end, 3);
                assert(inner[0] == ' ' && inner[1] == text[0]);
                assert(space_end(inner, 0, n) == 1);
                assert(inner[n - 1] == text[text.len() - 1]);
                assert(space_start(inner, 1, n) == n);
                assert(inner.subrange(1, n) =~= text);
            }
        }
    }
}

// -- Numbers -----------------------------------------------------------------------

/// Whether a text by itself is a number of a kind.
pub open spec fn numeral(kind: TokenKind, text: Seq<char>) -> bool {
    number_piece(text, 0) == Ok::<Piece, super::lexer::Fault>(
        Piece { kind, text, bytes: Seq::empty(), next: text.len() as int },
    )
}

/// Digits end where they end in the text alone.
proof fn digits_local(source: Seq<char>, at: int, text: Seq<char>, from: int)
    requires
        stands_at(source, at, text),
        stops(peek(source, at + text.len())),
        0 <= from <= text.len(),
    ensures
        digit_end(source, at + from) == at + digit_end(text, from),
        from <= digit_end(text, from) <= text.len(),
    decreases text.len() - from,
{
    if from < text.len() {
        stands_index(source, at, text, from);
        digits_local(source, at, text, from + 1);
    }
}

/// A number is read as itself.
pub proof fn number_reads(kind: TokenKind, text: Seq<char>, next: Option<char>)
    requires
        numeral(kind, text),
        stops(next),
    ensures
        reads(kind, text, Seq::empty(), text, next),
{
    reveal(reads);
    let first: int = if peek(text, 0) == Some('-') {
        1
    } else {
        0
    };
    let whole = digit_end(text, first);
    assert(text.len() > 0);
    assert(first <= text.len());
    assert(first < text.len() && is_digit(text[first]));
    assert forall|source: Seq<char>, at: int|
        stands_at(source, at, text) && peek(source, at + text.len()) == next implies (
    #[trigger] piece_at(source, at)) == Ok::<Piece, super::lexer::Fault>(
        Piece { kind, text, bytes: Seq::empty(), next: at + text.len() },
    ) by {
        let end = at + text.len();
        assert forall|k: int| 0 <= k < text.len() implies peek(source, at + k) == #[trigger] peek(
            text,
            k,
        ) by {
            stands_index(source, at, text, k);
        }
        stands_index(source, at, text, 0);
        stands_index(source, at, text, first);
        digits_local(source, at, text, first);
        assert(number_piece(source, at) == Ok::<Piece, super::lexer::Fault>(
            Piece { kind, text, bytes: Seq::empty(), next: end },
        )) by {
            number_local(source, at, text, first, kind);
        }
    }
}

/// A number is read in a source as it is read alone.
#[verifier::spinoff_prover]
#[verifier::rlimit(50)]
proof fn number_local(source: Seq<char>, at: int, text: Seq<char>, first: int, kind: TokenKind)
    requires
        stands_at(source, at, text),
        stops(peek(source, at + text.len())),
        numeral(kind, text),
        first == (if peek(text, 0) == Some('-') {
            1int
        } else {
            0int
        }),
        first < text.len(),
    ensures
        number_piece(source, at) == Ok::<Piece, super::lexer::Fault>(
            Piece { kind, text, bytes: Seq::empty(), next: at + text.len() },
        ),
{
    stands_index(source, at, text, 0);
    digits_local(source, at, text, first);
    let whole = digit_end(text, first);
    assert(whole > first);
    assert(whole < text.len() ==> peek(source, at + whole) == peek(text, whole)) by {
        if whole < text.len() {
            stands_index(source, at, text, whole);
        }
    }
    let mark = fraction_part(text, whole)->Ok_0;
    assert(fraction_part(text, whole) is Ok);
    if peek(text, whole) == Some('.') {
        digits_local(source, at, text, whole + 1);
    }
    assert(fraction_part(source, at + whole) == Ok::<int, super::lexer::Fault>(at + mark));
    assert(mark < text.len() ==> peek(source, at + mark) == peek(text, mark)) by {
        if mark < text.len() {
            stands_index(source, at, text, mark);
        }
    }
    assert(has_exponent(source, at + mark) == has_exponent(text, mark));
    if has_exponent(text, mark) {
        let digits = exponent_digits(text, mark);
        let end = digit_end(text, digits);
        if mark + 1 < text.len() {
            stands_index(source, at, text, mark + 1);
        } else {
            assert(digit_end(text, digits) == digits);
        }
        assert(digits <= text.len());
        assert(exponent_digits(source, at + mark) == at + digits);
        digits_local(source, at, text, digits);
        assert(end == text.len());
        stands_part(source, at, text, 0, mark);
        stands_part(source, at, text, mark + 1, end);
    } else {
        assert(mark == text.len());
        stands_part(source, at, text, 0, mark);
    }
}

/// Where digits end.
pub proof fn digit_run(source: Seq<char>, from: int, to: int)
    requires
        0 <= from <= to <= source.len(),
        forall|k: int| from <= k < to ==> is_digit(#[trigger] source[k]),
        to < source.len() ==> !is_digit(source[to]),
    ensures
        digit_end(source, from) == to,
    decreases to - from,
{
    if from < to {
        digit_run(source, from + 1, to);
    }
}

/// A whole number that is written out is an integer literal.
pub proof fn shown_is_numeral(number: int)
    ensures
        numeral(TokenKind::IntegerLiteral, shown(number)),
{
    let text = shown(number);
    let digits = if number < 0 {
        digits_of((-number) as nat)
    } else {
        digits_of(number as nat)
    };
    digits_read_back(if number < 0 {
        (-number) as nat
    } else {
        number as nat
    });
    let first: int = if number < 0 {
        1
    } else {
        0
    };
    assert(is_digit(digits[0]));
    assert forall|k: int| first <= k < text.len() implies is_digit(#[trigger] text[k]) by {
        assert(text[k] == digits[k - first]);
    }
    digit_run(text, first, text.len() as int);
    assert(text.subrange(0, text.len() as int) =~= text);
}

/// A number with a fraction or an exponent: an optional sign, a whole part, a fraction
/// unless it is empty, and an exponent.
spec fn float_form(
    minus: bool,
    whole: Seq<char>,
    fraction: Seq<char>,
    exponent: Option<int>,
) -> Seq<char> {
    (if minus {
        seq!['-']
    } else {
        Seq::empty()
    }) + whole + (if fraction.len() > 0 {
        seq!['.'] + fraction
    } else {
        Seq::empty()
    }) + (match exponent {
        Some(power) => seq!['e'] + shown(power),
        None => Seq::empty(),
    })
}

/// Such a number is a float literal.
proof fn float_form_is_numeral(
    minus: bool,
    whole: Seq<char>,
    fraction: Seq<char>,
    exponent: Option<int>,
)
    requires
        whole.len() > 0,
        all_digits(whole),
        all_digits(fraction),
        fraction.len() > 0 || exponent is Some,
    ensures
        numeral(TokenKind::FloatLiteral, float_form(minus, whole, fraction, exponent)),
{
    let text = float_form(minus, whole, fraction, exponent);
    let first: int = if minus {
        1
    } else {
        0
    };
    let point = first + whole.len();
    let mark: int = if fraction.len() > 0 {
        point + 1 + fraction.len()
    } else {
        point
    };
    assert(is_digit(whole[0]));
    assert(text[first] == whole[0]);
    assert forall|k: int| first <= k < point implies is_digit(#[trigger] text[k]) by {
        assert(text[k] == whole[k - first]);
    }
    if fraction.len() > 0 {
        assert(text[point] == '.');
        assert forall|k: int| point + 1 <= k < mark implies is_digit(#[trigger] text[k]) by {
            assert(text[k] == fraction[k - point - 1]);
        }
    }
    match exponent {
        Some(power) => {
            let tail = shown(power);
            let digits = if power < 0 {
                digits_of((-power) as nat)
            } else {
                digits_of(power as nat)
            };
            digits_read_back(if power < 0 {
                (-power) as nat
            } else {
                power as nat
            });
            assert(text.len() == mark + 1 + tail.len());
            assert(text[mark] == 'e');
            assert forall|k: int| mark + 1 <= k < text.len() implies #[trigger] text[k] == tail[k
                - mark - 1] by {}
            let from: int = if power < 0 {
                mark + 2
            } else {
                mark + 1
            };
            assert(is_digit(digits[0]));
            assert forall|k: int| from <= k < text.len() implies is_digit(#[trigger] text[k]) by {
                assert(tail[k - mark - 1] == digits[k - from]);
            }
            assert(text[mark + 1] == tail[0]);
            digit_run(text, from, text.len() as int);
            assert(exponent_digits(text, mark) == from);
            assert(text.subrange(0, mark).push('e') + text.subrange(mark + 1, text.len() as int)
                =~= text);
        },
        None => {
            assert(text.len() == mark);
            assert(text.subrange(0, mark) =~= text);
        },
    }
    digit_run(text, first, point);
    if fraction.len() > 0 {
        digit_run(text, point + 1, mark);
    }
    assert(fraction_part(text, point) == Ok::<int, super::lexer::Fault>(mark));
}

/// The sign in front of a number.
spec fn minus_of(minus: bool) -> Seq<char> {
    if minus {
        seq!['-']
    } else {
        Seq::empty()
    }
}

/// Digits laid out with an exponent are a float literal.
proof fn scientific_is_numeral(minus: bool, digits: Seq<char>, power: int)
    requires
        digits.len() > 0,
        all_digits(digits),
    ensures
        digits.len() == 1 ==> numeral(
            TokenKind::FloatLiteral,
            minus_of(minus) + (digits + seq!['e'] + shown(power)),
        ),
        digits.len() > 1 ==> numeral(
            TokenKind::FloatLiteral,
            minus_of(minus) + (seq![digits[0], '.'] + digits.skip(1) + seq!['e'] + shown(power)),
        ),
{
    let none = Seq::<char>::empty();
    if digits.len() == 1 {
        float_form_is_numeral(minus, digits, none, Some(power));
        assert(minus_of(minus) + (digits + seq!['e'] + shown(power)) =~= float_form(
            minus,
            digits,
            none,
            Some(power),
        ));
    } else {
        assert(is_digit(digits[0]));
        assert(all_digits(seq![digits[0]]));
        assert(all_digits(digits.skip(1)));
        float_form_is_numeral(minus, seq![digits[0]], digits.skip(1), Some(power));
        assert(minus_of(minus) + (seq![digits[0], '.'] + digits.skip(1) + seq!['e'] + shown(power))
            =~= float_form(minus, seq![digits[0]], digits.skip(1), Some(power)));
    }
}

/// Digits laid out with a point are a float literal.
proof fn pointed_is_numeral(minus: bool, whole: Seq<char>, fraction: Seq<char>)
    requires
        whole.len() > 0,
        fraction.len() > 0,
        all_digits(whole),
        all_digits(fraction),
    ensures
        numeral(TokenKind::FloatLiteral, minus_of(minus) + (whole + seq!['.'] + fraction)),
{
    float_form_is_numeral(minus, whole, fraction, None);
    assert(minus_of(minus) + (whole + seq!['.'] + fraction) =~= float_form(
        minus,
        whole,
        fraction,
        None,
    ));
}

/// Digits with zeros in front of or behind them are digits.
proof fn zeros_are_digits(digits: Seq<char>, count: int)
    requires
        all_digits(digits),
    ensures
        all_digits(zeros(count) + digits),
        all_digits(digits + zeros(count)),
{
    let front = zeros(count) + digits;
    let back = digits + zeros(count);
    assert forall|i: int| 0 <= i < front.len() implies is_digit(#[trigger] front[i]) by {
        if i >= zeros(count).len() {
            assert(front[i] == digits[i - zeros(count).len()]);
        }
    }
    assert forall|i: int| 0 <= i < back.len() implies is_digit(#[trigger] back[i]) by {
        if i < digits.len() {
            assert(back[i] == digits[i]);
        }
    }
}

/// Digits that are laid out are a float literal.
#[verifier::spinoff_prover]
#[verifier::rlimit(50)]
proof fn layout_is_numeral(minus: bool, digits: Seq<char>, exponent: int)
    requires
        digits.len() > 0,
        all_digits(digits),
    ensures
        numeral(TokenKind::FloatLiteral, minus_of(minus) + layout(digits, exponent)),
{
    let point = digits.len() + exponent;
    if point <= -4 || point > 16 {
        scientific_is_numeral(minus, digits, point - 1);
    } else if point <= 0 {
        zeros_are_digits(digits, -point);
        pointed_is_numeral(minus, seq!['0'], zeros(-point) + digits);
        assert(layout(digits, exponent) =~= seq!['0'] + seq!['.'] + (zeros(-point) + digits));
    } else if digits.len() <= point {
        zeros_are_digits(digits, point - digits.len());
        pointed_is_numeral(minus, digits + zeros(point - digits.len()), seq!['0']);
        assert(layout(digits, exponent) =~= digits + zeros(point - digits.len()) + seq!['.']
            + seq!['0']);
    } else {
        assert(all_digits(digits.take(point)));
        assert(all_digits(digits.skip(point)));
        pointed_is_numeral(minus, digits.take(point), digits.skip(point));
    }
}

/// A finite number that is written out is a float literal.
pub proof fn shown_double_is_numeral(bits: u64)
    ensures
        numeral(TokenKind::FloatLiteral, shown_double(bits)),
{
    let minus = negative(bits);
    let pattern = magnitude(bits) as int;
    if pattern == 0 {
        pointed_is_numeral(minus, seq!['0'], seq!['0']);
        assert(shown_double(bits) =~= minus_of(minus) + (seq!['0'] + seq!['.'] + seq!['0']));
    } else {
        let parts = shortest_of(pattern);
        digits_read_back(parts.0);
        layout_is_numeral(minus, digits_of(parts.0), parts.1);
        assert(shown_double(bits) =~= minus_of(minus) + layout(digits_of(parts.0), parts.1));
    }
}

} // verus!
