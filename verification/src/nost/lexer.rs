//! The `.nost` lexer.
//!
//! Trivia is emitted rather than discarded: a comment-preserving tree cannot be built from
//! a token stream that already threw the comments away.
//!
//! Each comment records whether it began its own line, which is what the attachment rule
//! turns on: an own-line comment leads the next declaration, and a same-line comment
//! trails the one before it.

use super::ParseError;
use super::ParseErrorModel;
use crate::copies::Copied;
use crate::evidence::range_fault;
use crate::evidence::SourcePosition;
use crate::evidence::SourceRange;
use crate::id::debug_form;
use crate::id::show_debug;
use crate::number::is_digit;
use crate::property::copy_bytes;
use crate::text::characters;
use crate::text::joined;
use crate::text::same;
use crate::text::string_of;
use crate::text::views;
use crate::text::views_push;
use crate::unicode::is_white_space;
use crate::unicode::is_xid_continue;
use crate::unicode::starts_name;
use crate::unicode::trim_bounds;
use crate::unicode::trimmed;
use crate::unicode::white_space;
use crate::unicode::xid_continue;
use crate::unicode::xid_start;
use vstd::prelude::*;
use vstd::string::StringExecFns;

verus! {

// -- Tokens ------------------------------------------------------------------------

/// A trivia token.
#[derive(Clone, Copy, Debug, PartialEq, Eq, Structural)]
pub enum TriviaKind {
    /// Spaces, tabs, and line terminators.
    Whitespace,
    /// A `//` comment running to the end of the line.
    LineComment,
    /// A `/* */` comment, which does not nest.
    BlockComment,
}

/// A word the grammar treats specially.
///
/// `id`, `module` and `source` are no reserved words: where a name is wanted, they are
/// names.
#[derive(Clone, Copy, Debug, PartialEq, Eq, Structural)]
pub enum Keyword {
    /// `as`
    As,
    /// `bytes`, outside a tagged literal.
    Bytes,
    /// `datetime`, outside a tagged literal.
    Datetime,
    /// `edge`
    Edge,
    /// `false`
    False,
    /// `id`
    Id,
    /// `module`
    Module,
    /// `node`
    Node,
    /// `schema`
    Schema,
    /// `source`
    Source,
    /// `true`
    True,
}

impl Keyword {
    /// How the word is spelled.
    pub open spec fn spelling(self) -> Seq<char> {
        match self {
            Keyword::As => "as"@,
            Keyword::Bytes => "bytes"@,
            Keyword::Datetime => "datetime"@,
            Keyword::Edge => "edge"@,
            Keyword::False => "false"@,
            Keyword::Id => "id"@,
            Keyword::Module => "module"@,
            Keyword::Node => "node"@,
            Keyword::Schema => "schema"@,
            Keyword::Source => "source"@,
            Keyword::True => "true"@,
        }
    }

    /// The word a text spells.
    pub open spec fn spelled(text: Seq<char>) -> Option<Keyword> {
        if text == "as"@ {
            Some(Keyword::As)
        } else if text == "bytes"@ {
            Some(Keyword::Bytes)
        } else if text == "datetime"@ {
            Some(Keyword::Datetime)
        } else if text == "edge"@ {
            Some(Keyword::Edge)
        } else if text == "false"@ {
            Some(Keyword::False)
        } else if text == "id"@ {
            Some(Keyword::Id)
        } else if text == "module"@ {
            Some(Keyword::Module)
        } else if text == "node"@ {
            Some(Keyword::Node)
        } else if text == "schema"@ {
            Some(Keyword::Schema)
        } else if text == "source"@ {
            Some(Keyword::Source)
        } else if text == "true"@ {
            Some(Keyword::True)
        } else {
            None
        }
    }

    fn from_text(text: &str) -> (found: Option<Keyword>)
        ensures
            found == Keyword::spelled(text@),
    {
        if same(text, "as") {
            Some(Keyword::As)
        } else if same(text, "bytes") {
            Some(Keyword::Bytes)
        } else if same(text, "datetime") {
            Some(Keyword::Datetime)
        } else if same(text, "edge") {
            Some(Keyword::Edge)
        } else if same(text, "false") {
            Some(Keyword::False)
        } else if same(text, "id") {
            Some(Keyword::Id)
        } else if same(text, "module") {
            Some(Keyword::Module)
        } else if same(text, "node") {
            Some(Keyword::Node)
        } else if same(text, "schema") {
            Some(Keyword::Schema)
        } else if same(text, "source") {
            Some(Keyword::Source)
        } else if same(text, "true") {
            Some(Keyword::True)
        } else {
            None
        }
    }

    /// How the word is spelled.
    pub fn as_str(self) -> (text: &'static str)
        ensures
            text@ == self.spelling(),
    {
        match self {
            Keyword::As => "as",
            Keyword::Bytes => "bytes",
            Keyword::Datetime => "datetime",
            Keyword::Edge => "edge",
            Keyword::False => "false",
            Keyword::Id => "id",
            Keyword::Module => "module",
            Keyword::Node => "node",
            Keyword::Schema => "schema",
            Keyword::Source => "source",
            Keyword::True => "true",
        }
    }
}

/// What a token is.
#[derive(Clone, Copy, Debug, PartialEq, Eq, Structural)]
pub enum TokenKind {
    /// Whitespace or a comment.
    Trivia(TriviaKind),
    /// A word the grammar treats specially.
    Keyword(Keyword),
    /// An identifier.
    Identifier,
    /// An integer literal, kept as text so a range violation stays semantic.
    IntegerLiteral,
    /// A float literal, kept as text for the same reason.
    FloatLiteral,
    /// A string literal, already unescaped.
    StringLiteral,
    /// A `bytes"..."` literal, already decoded.
    BytesLiteral,
    /// A `datetime"..."` literal, kept as text so validation can check RFC 3339.
    DateTimeLiteral,
    /// `@nost`
    NostDirective,
    /// `@link`
    LinkDirective,
    /// `@by`
    ByDirective,
    /// `@evidence`
    EvidenceDirective,
    /// `{`
    LeftBrace,
    /// `}`
    RightBrace,
    /// `(`
    LeftParen,
    /// `)`
    RightParen,
    /// `[`
    LeftBracket,
    /// `]`
    RightBracket,
    /// `:`
    Colon,
    /// `::`
    ColonColon,
    /// `,`
    Comma,
    /// `?`
    Question,
    /// `->`
    Arrow,
    /// End of input.
    Eof,
}

/// One token.
#[derive(Debug, PartialEq)]
pub struct Token {
    /// What it is.
    pub kind: TokenKind,
    /// Where it is.
    pub range: SourceRange,
    /// The token's meaning: an identifier's name, a literal's value, a comment's text.
    pub text: String,
    /// The decoded bytes, for a `bytes` literal only.
    pub bytes: Vec<u8>,
    /// Whether this token began its own line, which the comment attachment rule uses.
    pub on_own_line: bool,
}

/// What a token says.
pub struct TokenModel {
    /// What it is.
    pub kind: TokenKind,
    /// Where it is.
    pub range: SourceRange,
    /// The token's meaning.
    pub text: Seq<char>,
    /// The decoded bytes.
    pub bytes: Seq<u8>,
    /// Whether this token began its own line.
    pub on_own_line: bool,
}

impl View for Token {
    type V = TokenModel;

    open spec fn view(&self) -> TokenModel {
        TokenModel {
            kind: self.kind,
            range: self.range,
            text: self.text@,
            bytes: self.bytes@,
            on_own_line: self.on_own_line,
        }
    }
}

impl Copied for Token {
    fn copied(&self) -> (copy: Self) {
        Token {
            kind: self.kind,
            range: self.range,
            text: self.text.clone(),
            bytes: copy_bytes(&self.bytes),
            on_own_line: self.on_own_line,
        }
    }
}

impl Clone for Token {
    fn clone(&self) -> (copy: Self)
        ensures
            copy@ == self@,
    {
        self.copied()
    }
}

impl Token {
    /// Reports whether this token is trivia.
    pub fn is_trivia(&self) -> (answer: bool)
        ensures
            answer == (self@.kind is Trivia),
    {
        match self.kind {
            TokenKind::Trivia(_) => true,
            _ => false,
        }
    }

    /// Reports whether this token is a comment.
    pub fn is_comment(&self) -> (answer: bool)
        ensures
            answer == (self@.kind matches TokenKind::Trivia(kind) && kind !is Whitespace),
    {
        match self.kind {
            TokenKind::Trivia(TriviaKind::Whitespace) => false,
            TokenKind::Trivia(_) => true,
            _ => false,
        }
    }
}

// -- Positions ---------------------------------------------------------------------

/// How many bytes a character takes in UTF-8.
pub open spec fn width(c: char) -> nat {
    if (c as u32) < 0x80 {
        1
    } else if (c as u32) < 0x800 {
        2
    } else if (c as u32) < 0x10000 {
        3
    } else {
        4
    }
}

/// The position behind a character.
pub open spec fn stepped(position: SourcePosition, c: char) -> SourcePosition {
    if c == '\n' {
        SourcePosition {
            line: (position.line + 1) as u32,
            column: 1,
            offset: (position.offset + width(c)) as u64,
        }
    } else {
        SourcePosition {
            line: position.line,
            column: (position.column + 1) as u32,
            offset: (position.offset + width(c)) as u64,
        }
    }
}

/// The position in front of the character with index `at`.
pub open spec fn position_at(source: Seq<char>, at: int) -> SourcePosition
    decreases at,
{
    if at <= 0 {
        SourcePosition { line: 1, column: 1, offset: 0 }
    } else {
        stepped(position_at(source, at - 1), source[at - 1])
    }
}

/// The line of the character with index `at`, however many there are.
pub open spec fn line_at(source: Seq<char>, at: int) -> nat
    decreases at,
{
    if at <= 0 {
        1
    } else if source[at - 1] == '\n' {
        line_at(source, at - 1) + 1
    } else {
        line_at(source, at - 1)
    }
}

/// The column of the character with index `at`, however long the line is.
pub open spec fn column_at(source: Seq<char>, at: int) -> nat
    decreases at,
{
    if at <= 0 || source[at - 1] == '\n' {
        1
    } else {
        column_at(source, at - 1) + 1
    }
}

/// How many bytes stand in front of the character with index `at`.
pub open spec fn bytes_before(source: Seq<char>, at: int) -> nat
    decreases at,
{
    if at <= 0 {
        0
    } else {
        bytes_before(source, at - 1) + width(source[at - 1])
    }
}

/// Whether the position in front of the character with index `at` fits its types.
pub open spec fn counted_at(source: Seq<char>, at: int) -> bool {
    &&& line_at(source, at) <= u32::MAX
    &&& column_at(source, at) <= u32::MAX
    &&& bytes_before(source, at) <= u64::MAX
}

/// Whether the lines of a source, and the columns of each line, can be counted in 32 bits,
/// and its bytes in 64.
pub open spec fn countable(source: Seq<char>) -> bool {
    forall|at: int| 0 <= at <= source.len() ==> #[trigger] counted_at(source, at)
}

/// A source with fewer characters than 32 bits can count is countable.
pub proof fn short_sources_are_countable(source: Seq<char>)
    requires
        source.len() < u32::MAX,
    ensures
        countable(source),
{
    assert forall|at: int| 0 <= at <= source.len() implies #[trigger] counted_at(source, at) by {
        counts_are_bounded(source, at);
    }
}

proof fn counts_are_bounded(source: Seq<char>, at: int)
    requires
        0 <= at <= source.len(),
    ensures
        line_at(source, at) <= at + 1,
        column_at(source, at) <= at + 1,
        bytes_before(source, at) <= 4 * at,
    decreases at,
{
    if at > 0 {
        counts_are_bounded(source, at - 1);
    }
}

/// Reports whether the lines and columns of a source can be counted, as reading it needs.
pub fn can_be_counted(source: &str) -> (answer: bool)
    ensures
        answer == countable(source@),
{
    let ghost all = source@;
    let found = characters(source);
    let mut at: usize = 0;
    let mut line: u32 = 1;
    let mut column: u32 = 1;
    let mut offset: u64 = 0;
    while at < found.len()
        invariant
            all == source@,
            found@ == all,
            at <= all.len(),
            line == line_at(all, at as int),
            column == column_at(all, at as int),
            offset == bytes_before(all, at as int),
            forall|i: int| 0 <= i <= at ==> #[trigger] counted_at(all, i),
        decreases all.len() - at,
    {
        let c: char = found[at];
        let bytes: u64 = bytes_of(c);
        let full = if c == '\n' {
            line == u32::MAX
        } else {
            column == u32::MAX
        };
        if full || offset > u64::MAX - bytes {
            assert(!counted_at(all, at + 1));
            return false;
        }
        if c == '\n' {
            line = line + 1;
            column = 1;
        } else {
            column = column + 1;
        }
        offset = offset + bytes;
        at = at + 1;
        assert(counted_at(all, at as int));
    }
    true
}

fn bytes_of(c: char) -> (bytes: u64)
    ensures
        bytes == width(c),
{
    let code: u32 = c as u32;
    if code < 0x80 {
        1
    } else if code < 0x800 {
        2
    } else if code < 0x10000 {
        3
    } else {
        4
    }
}

/// Lines, columns and offsets stay within the range of their types.
pub proof fn position_bounds(source: Seq<char>, at: int)
    requires
        countable(source),
        0 <= at <= source.len(),
    ensures
        counted_at(source, at),
        1 <= line_at(source, at),
        1 <= column_at(source, at),
        position_at(source, at).line == line_at(source, at),
        position_at(source, at).column == column_at(source, at),
        position_at(source, at).offset == bytes_before(source, at),
    decreases at,
{
    assert(counted_at(source, at));
    if at > 0 {
        position_bounds(source, at - 1);
    }
}

/// Positions never regress.
pub proof fn positions_grow(source: Seq<char>, from: int, to: int)
    requires
        countable(source),
        0 <= from <= to <= source.len(),
    ensures
        range_fault(position_at(source, from), position_at(source, to)) is None,
        from < to ==> position_at(source, from).offset < position_at(source, to).offset,
    decreases to - from,
{
    position_bounds(source, from);
    position_bounds(source, to);
    if from < to {
        positions_grow(source, from, to - 1);
        position_bounds(source, to - 1);
    }
}

/// The range of the characters `from..to`.
pub open spec fn range_of(source: Seq<char>, from: int, to: int) -> SourceRange {
    SourceRange::made_or(
        position_at(source, from),
        position_at(source, to),
        SourceRange::at_origin(),
    )
}

/// The range of some characters starts in front of the first and ends behind the last.
pub proof fn range_is_exact(source: Seq<char>, from: int, to: int)
    requires
        countable(source),
        0 <= from <= to <= source.len(),
    ensures
        range_of(source, from, to).from() == position_at(source, from),
        range_of(source, from, to).to() == position_at(source, to),
{
    broadcast use SourceRange::made_of_ends;

    positions_grow(source, from, to);
}

// -- Runs of characters ------------------------------------------------------------

/// Where the white space that starts at `at` ends.
pub open spec fn white_end(source: Seq<char>, at: int) -> int
    decreases source.len() - at,
{
    if 0 <= at < source.len() && white_space(source[at]) {
        white_end(source, at + 1)
    } else {
        at
    }
}

/// Where the line that `at` lies in ends.
pub open spec fn line_end(source: Seq<char>, at: int) -> int
    decreases source.len() - at,
{
    if 0 <= at < source.len() && source[at] != '\n' {
        line_end(source, at + 1)
    } else {
        at
    }
}

/// Where the characters that continue a name end.
pub open spec fn word_end(source: Seq<char>, at: int) -> int
    decreases source.len() - at,
{
    if 0 <= at < source.len() && xid_continue(source[at]) {
        word_end(source, at + 1)
    } else {
        at
    }
}

/// Where the decimal digits that start at `at` end.
pub open spec fn digit_end(source: Seq<char>, at: int) -> int
    decreases source.len() - at,
{
    if 0 <= at < source.len() && is_digit(source[at]) {
        digit_end(source, at + 1)
    } else {
        at
    }
}

/// Whether `c` is a hexadecimal digit.
pub open spec fn hexadecimal(c: char) -> bool {
    is_digit(c) || ('a' <= c && c <= 'f') || ('A' <= c && c <= 'F')
}

/// The value of a hexadecimal digit.
pub open spec fn hex_value(c: char) -> int {
    if is_digit(c) {
        c as int - '0' as int
    } else if 'a' <= c && c <= 'f' {
        c as int - 'a' as int + 10
    } else {
        c as int - 'A' as int + 10
    }
}

/// Where the hexadecimal digits that start at `at` end.
pub open spec fn hex_end(source: Seq<char>, at: int) -> int
    decreases source.len() - at,
{
    if 0 <= at < source.len() && hexadecimal(source[at]) {
        hex_end(source, at + 1)
    } else {
        at
    }
}

/// Where the next `*/` starts, if there is one.
pub open spec fn comment_close(source: Seq<char>, at: int) -> Option<int>
    decreases source.len() - at,
{
    if !(0 <= at < source.len()) {
        None
    } else if source[at] == '*' && at + 1 < source.len() && source[at + 1] == '/' {
        Some(at)
    } else {
        comment_close(source, at + 1)
    }
}

/// A run ends within the source, and not before it starts.
pub proof fn runs_are_bounded(source: Seq<char>, at: int)
    requires
        0 <= at <= source.len(),
    ensures
        at <= white_end(source, at) <= source.len(),
        at <= line_end(source, at) <= source.len(),
        at <= word_end(source, at) <= source.len(),
        at <= digit_end(source, at) <= source.len(),
        at <= hex_end(source, at) <= source.len(),
        comment_close(source, at) matches Some(close) ==> at <= close && close + 2 <= source.len(),
    decreases source.len() - at,
{
    if at < source.len() {
        runs_are_bounded(source, at + 1);
    }
}

// -- What a token is made of -------------------------------------------------------

/// A token without its position: what it is, what it says, and where it ends.
pub struct Piece {
    /// What it is.
    pub kind: TokenKind,
    /// What it says.
    pub text: Seq<char>,
    /// The decoded bytes.
    pub bytes: Seq<u8>,
    /// The index behind its last character.
    pub next: int,
}

/// What is wrong, and how far the lexer had read.
pub struct Fault {
    /// What is wrong.
    pub message: Seq<char>,
    /// The index reached.
    pub reached: int,
}

/// A plain piece.
pub open spec fn piece(kind: TokenKind, text: Seq<char>, next: int) -> Result<Piece, Fault> {
    Ok(Piece { kind, text, bytes: Seq::empty(), next })
}

/// A fault.
pub open spec fn fault<T>(message: Seq<char>, reached: int) -> Result<T, Fault> {
    Err(Fault { message, reached })
}

/// The value of hexadecimal digits.
pub open spec fn hex_number(digits: Seq<char>) -> int
    decreases digits.len(),
{
    if digits.len() == 0 {
        0
    } else {
        hex_number(digits.drop_last()) * 16 + hex_value(digits.last())
    }
}

/// Whether a number is a Unicode scalar value.
pub open spec fn scalar_value(number: int) -> bool {
    0 <= number < 0xd800 || 0xe000 <= number < 0x110000
}

/// The character an escape stands for, and the index behind the escape. `at` is the index
/// behind the backslash.
pub open spec fn escaped(source: Seq<char>, at: int) -> Result<(char, int), Fault> {
    if at >= source.len() {
        fault("an unterminated escape sequence"@, at)
    } else if source[at] == '"' {
        Ok(('"', at + 1))
    } else if source[at] == '\\' {
        Ok(('\\', at + 1))
    } else if source[at] == 'n' {
        Ok(('\n', at + 1))
    } else if source[at] == 'r' {
        Ok(('\r', at + 1))
    } else if source[at] == 't' {
        Ok(('\t', at + 1))
    } else if source[at] == 'u' {
        if at + 1 >= source.len() {
            fault("a unicode escape needs `u{`"@, at + 1)
        } else if source[at + 1] != '{' {
            fault("a unicode escape needs `u{`"@, at + 2)
        } else {
            let end = hex_end(source, at + 2);
            let number = hex_number(source.subrange(at + 2, end));
            if end >= source.len() {
                fault("an unterminated unicode escape"@, end)
            } else if source[end] != '}' {
                fault("a unicode escape takes hexadecimal digits"@, end)
            } else if end == at + 2 || number > 0xffff_ffff {
                fault("a unicode escape is out of range"@, end + 1)
            } else if !scalar_value(number) {
                fault("a unicode escape names no scalar value"@, end + 1)
            } else {
                Ok((number as char, end + 1))
            }
        }
    } else {
        fault("unknown escape sequence `\\"@ + seq![source[at]] + "`"@, at + 1)
    }
}

/// The rest of a string literal: what is behind `at`, with `before` already read. The
/// index comes back that lies behind the closing quote.
pub open spec fn string_rest(source: Seq<char>, at: int, before: Seq<char>) -> Result<
    (Seq<char>, int),
    Fault,
>
    decreases source.len() - at,
{
    if at < 0 || at >= source.len() {
        fault("an unterminated string literal"@, at)
    } else if source[at] == '"' {
        Ok((before, at + 1))
    } else if source[at] == '\n' || source[at] == '\r' {
        fault("a line terminator inside a string literal"@, at)
    } else if source[at] == '\\' {
        proof {
            escape_is_bounded(source, at + 1);
        }
        match escaped(source, at + 1) {
            Err(wrong) => Err(wrong),
            Ok((c, next)) => string_rest(source, next, before.push(c)),
        }
    } else {
        string_rest(source, at + 1, before.push(source[at]))
    }
}

/// The bytes that pairs of hexadecimal digits stand for.
pub open spec fn hex_bytes(digits: Seq<char>) -> Seq<u8> {
    Seq::new(
        digits.len() / 2,
        |i: int| (hex_value(digits[2 * i]) * 16 + hex_value(digits[2 * i + 1])) as u8,
    )
}

/// The bytes literal whose opening quote stands at `at`.
pub open spec fn bytes_piece(source: Seq<char>, at: int) -> Result<Piece, Fault> {
    let end = hex_end(source, at + 1);
    let digits = source.subrange(at + 1, end);
    if end >= source.len() {
        fault("an unterminated bytes literal"@, end)
    } else if source[end] != '"' {
        fault("a bytes literal takes hexadecimal digits"@, end)
    } else if digits.len() % 2 != 0 {
        fault("a bytes literal needs an even number of hexadecimal digits"@, end + 1)
    } else {
        Ok(
            Piece {
                kind: TokenKind::BytesLiteral,
                text: digits,
                bytes: hex_bytes(digits),
                next: end + 1,
            },
        )
    }
}

/// The character at `at`, if there is one.
pub open spec fn peek(source: Seq<char>, at: int) -> Option<char> {
    if 0 <= at < source.len() {
        Some(source[at])
    } else {
        None
    }
}

/// The index behind the fraction that may stand at `at`.
pub open spec fn fraction_part(source: Seq<char>, at: int) -> Result<int, Fault> {
    if peek(source, at) == Some('.') {
        if digit_end(source, at + 1) == at + 1 {
            fault("a float needs a digit after `.`"@, at + 1)
        } else {
            Ok(digit_end(source, at + 1))
        }
    } else {
        Ok(at)
    }
}

/// Where the digits of the exponent at `at` start.
pub open spec fn exponent_digits(source: Seq<char>, at: int) -> int {
    if peek(source, at + 1) == Some('+') || peek(source, at + 1) == Some('-') {
        at + 2
    } else {
        at + 1
    }
}

/// Whether an exponent stands at `at`.
pub open spec fn has_exponent(source: Seq<char>, at: int) -> bool {
    peek(source, at) == Some('e') || peek(source, at) == Some('E')
}

/// The number that starts at `at`, with its exponent mark in lower case.
pub open spec fn number_piece(source: Seq<char>, at: int) -> Result<Piece, Fault> {
    let first = if peek(source, at) == Some('-') {
        at + 1
    } else {
        at
    };
    let whole = digit_end(source, first);
    if whole == first {
        fault("expected a digit after `-`"@, first)
    } else {
        match fraction_part(source, whole) {
            Err(wrong) => Err(wrong),
            Ok(mark) => if has_exponent(source, mark) {
                let digits = exponent_digits(source, mark);
                let end = digit_end(source, digits);
                if end == digits {
                    fault("an exponent needs at least one digit"@, digits)
                } else {
                    piece(
                        TokenKind::FloatLiteral,
                        source.subrange(at, mark).push('e') + source.subrange(mark + 1, end),
                        end,
                    )
                }
            } else {
                piece(
                    if mark == whole {
                        TokenKind::IntegerLiteral
                    } else {
                        TokenKind::FloatLiteral
                    },
                    source.subrange(at, mark),
                    mark,
                )
            },
        }
    }
}

/// The directive that starts at `at`.
pub open spec fn directive_piece(source: Seq<char>, at: int) -> Result<Piece, Fault> {
    let end = word_end(source, at + 1);
    let word = source.subrange(at + 1, end);
    if word == "nost"@ {
        piece(TokenKind::NostDirective, word, end)
    } else if word == "link"@ {
        piece(TokenKind::LinkDirective, word, end)
    } else if word == "by"@ {
        piece(TokenKind::ByDirective, word, end)
    } else if word == "evidence"@ {
        piece(TokenKind::EvidenceDirective, word, end)
    } else {
        fault("unknown directive `@"@ + word + "`, expected `@nost` or `@link`"@, end)
    }
}

/// The word or tagged literal that starts at `at`.
pub open spec fn word_piece(source: Seq<char>, at: int) -> Result<Piece, Fault> {
    let end = word_end(source, at + 1);
    let word = source.subrange(at, end);
    let tagged = peek(source, end) == Some('"');
    if tagged && word == "bytes"@ {
        bytes_piece(source, end)
    } else if tagged && word == "datetime"@ {
        match string_rest(source, end + 1, Seq::empty()) {
            Err(wrong) => Err(wrong),
            Ok((text, next)) => piece(TokenKind::DateTimeLiteral, text, next),
        }
    } else {
        piece(
            match Keyword::spelled(word) {
                Some(keyword) => TokenKind::Keyword(keyword),
                None => TokenKind::Identifier,
            },
            word,
            end,
        )
    }
}

/// The token one character makes, if it makes one by itself.
pub open spec fn single(c: char) -> Option<TokenKind> {
    if c == '{' {
        Some(TokenKind::LeftBrace)
    } else if c == '}' {
        Some(TokenKind::RightBrace)
    } else if c == '(' {
        Some(TokenKind::LeftParen)
    } else if c == ')' {
        Some(TokenKind::RightParen)
    } else if c == '[' {
        Some(TokenKind::LeftBracket)
    } else if c == ']' {
        Some(TokenKind::RightBracket)
    } else if c == ',' {
        Some(TokenKind::Comma)
    } else if c == '?' {
        Some(TokenKind::Question)
    } else {
        None
    }
}

/// The token that starts at `at`.
pub open spec fn piece_at(source: Seq<char>, at: int) -> Result<Piece, Fault> {
    let c = source[at];
    let second = peek(source, at + 1);
    if white_space(c) {
        piece(TokenKind::Trivia(TriviaKind::Whitespace), Seq::empty(), white_end(source, at))
    } else if c == '/' && second == Some('/') {
        let end = line_end(source, at + 2);
        piece(
            TokenKind::Trivia(TriviaKind::LineComment),
            trimmed(source.subrange(at + 2, end)),
            end,
        )
    } else if c == '/' && second == Some('*') {
        match comment_close(source, at + 2) {
            None => fault("an unterminated block comment"@, source.len() as int),
            Some(close) => piece(
                TokenKind::Trivia(TriviaKind::BlockComment),
                source.subrange(at + 2, close),
                close + 2,
            ),
        }
    } else if c == '@' {
        directive_piece(source, at)
    } else if c == '"' {
        match string_rest(source, at + 1, Seq::empty()) {
            Err(wrong) => Err(wrong),
            Ok((text, next)) => piece(TokenKind::StringLiteral, text, next),
        }
    } else if single(c) is Some {
        piece(single(c)->0, seq![c], at + 1)
    } else if c == ':' {
        if second == Some(':') {
            piece(TokenKind::ColonColon, Seq::empty(), at + 2)
        } else {
            piece(TokenKind::Colon, Seq::empty(), at + 1)
        }
    } else if c == '-' && second == Some('>') {
        piece(TokenKind::Arrow, "->"@, at + 2)
    } else if c == '-' || is_digit(c) {
        number_piece(source, at)
    } else if xid_start(c) || c == '_' {
        word_piece(source, at)
    } else {
        fault("unexpected character "@ + debug_form(c), at)
    }
}

/// A piece with its position.
pub open spec fn token_of(source: Seq<char>, at: int, found: Piece, own_line: bool) -> TokenModel {
    TokenModel {
        kind: found.kind,
        range: range_of(source, at, found.next),
        text: found.text,
        bytes: found.bytes,
        on_own_line: own_line,
    }
}

/// Whether the token behind `found` is the first of its line.
pub open spec fn starts_line(source: Seq<char>, at: int, found: Piece, own_line: bool) -> bool {
    found.kind == TokenKind::Trivia(TriviaKind::Whitespace) && (own_line || source.subrange(
        at,
        found.next,
    ).contains('\n'))
}

/// The tokens from `at` on, behind those already read.
pub open spec fn lexed(
    source: Seq<char>,
    at: int,
    own_line: bool,
    before: Seq<TokenModel>,
) -> Result<Seq<TokenModel>, ParseErrorModel>
    decreases source.len() - at,
{
    if at < 0 || at >= source.len() {
        Ok(
            before.push(
                TokenModel {
                    kind: TokenKind::Eof,
                    range: range_of(source, at, at),
                    text: Seq::empty(),
                    bytes: Seq::empty(),
                    on_own_line: own_line,
                },
            ),
        )
    } else {
        proof {
            pieces_are_bounded(source, at);
        }
        match piece_at(source, at) {
            Err(wrong) => Err(
                ParseErrorModel { message: wrong.message, range: range_of(source, at, wrong.reached) },
            ),
            Ok(found) => lexed(
                source,
                found.next,
                starts_line(source, at, found, own_line),
                before.push(token_of(source, at, found, own_line)),
            ),
        }
    }
}

/// The tokens of a source, ending with the end of input.
pub open spec fn tokens_of(source: Seq<char>) -> Result<Seq<TokenModel>, ParseErrorModel> {
    lexed(source, 0, true, Seq::empty())
}

/// A string literal that can be read ends behind its start, within the source, and a fault
/// lies within it too.
pub proof fn string_rest_is_bounded(source: Seq<char>, at: int, before: Seq<char>)
    requires
        0 <= at <= source.len(),
    ensures
        match string_rest(source, at, before) {
            Ok((_, next)) => at < next <= source.len(),
            Err(wrong) => at <= wrong.reached <= source.len(),
        },
    decreases source.len() - at,
{
    if at < source.len() && source[at] != '"' && source[at] != '\n' && source[at] != '\r' {
        if source[at] == '\\' {
            escape_is_bounded(source, at + 1);
            match escaped(source, at + 1) {
                Ok((c, next)) => {
                    string_rest_is_bounded(source, next, before.push(c));
                }
                Err(_) => {}
            }
        } else {
            string_rest_is_bounded(source, at + 1, before.push(source[at]));
        }
    }
}

/// An escape ends behind its start, within the source.
pub proof fn escape_is_bounded(source: Seq<char>, at: int)
    requires
        0 <= at <= source.len(),
    ensures
        match escaped(source, at) {
            Ok((_, next)) => at < next <= source.len(),
            Err(wrong) => at <= wrong.reached <= source.len(),
        },
{
    if at + 2 <= source.len() {
        runs_are_bounded(source, at + 2);
    }
}

/// A token that can be read is not empty and ends within the source, and a fault lies
/// within it too.
pub proof fn pieces_are_bounded(source: Seq<char>, at: int)
    requires
        0 <= at < source.len(),
    ensures
        match piece_at(source, at) {
            Ok(found) => at < found.next <= source.len(),
            Err(wrong) => at <= wrong.reached <= source.len(),
        },
{
    let c = source[at];
    runs_are_bounded(source, at);
    runs_are_bounded(source, at + 1);
    if at + 2 <= source.len() {
        runs_are_bounded(source, at + 2);
    }
    string_rest_is_bounded(source, at + 1, Seq::empty());
    if white_space(c) {
        assert(white_end(source, at) == white_end(source, at + 1));
    }
    if c == '-' || is_digit(c) {
        let first = if c == '-' {
            at + 1
        } else {
            at
        };
        let whole = digit_end(source, first);
        runs_are_bounded(source, first);
        if whole < source.len() {
            runs_are_bounded(source, whole + 1);
        }
        match fraction_part(source, whole) {
            Ok(mark) => {
                if mark < source.len() {
                    let digits = exponent_digits(source, mark);
                    runs_are_bounded(source, digits);
                }
            }
            Err(_) => {}
        }
    }
    let end = word_end(source, at + 1);
    if (xid_start(c) || c == '_') && end < source.len() {
        runs_are_bounded(source, end + 1);
        string_rest_is_bounded(source, end + 1, Seq::empty());
    }
}

// -- Reading -----------------------------------------------------------------------

struct Lexer {
    characters: Vec<char>,
    index: usize,
    line: u32,
    column: u32,
    offset: u64,
}

impl Lexer {
    spec fn valid(&self, source: Seq<char>) -> bool {
        &&& self.characters@ == source
        &&& countable(source)
        &&& self.characters.len() == source.len()
        &&& self.index <= source.len()
        &&& position_at(source, self.index as int) == SourcePosition {
            line: self.line,
            column: self.column,
            offset: self.offset,
        }
    }

    fn position(&self) -> (position: SourcePosition)
        ensures
            position == (SourcePosition {
                line: self.line,
                column: self.column,
                offset: self.offset,
            }),
    {
        SourcePosition { line: self.line, column: self.column, offset: self.offset }
    }

    fn peek(&self) -> (found: Option<char>)
        requires
            self.index <= self.characters@.len(),
        ensures
            found == peek(self.characters@, self.index as int),
    {
        if self.index < self.characters.len() {
            Some(self.characters[self.index])
        } else {
            None
        }
    }

    fn peek_second(&self) -> (found: Option<char>)
        requires
            self.index <= self.characters@.len(),
        ensures
            found == peek(self.characters@, self.index + 1),
    {
        if self.index < self.characters.len() && self.characters.len() - self.index > 1 {
            Some(self.characters[self.index + 1])
        } else {
            None
        }
    }

    fn advance(&mut self, Ghost(source): Ghost<Seq<char>>)
        requires
            old(self).valid(source),
            old(self).index < source.len(),
        ensures
            final(self).valid(source),
            final(self).index == old(self).index + 1,
    {
        proof {
            position_bounds(source, self.index as int);
            position_bounds(source, self.index + 1);
        }
        let c: char = self.characters[self.index];
        let bytes: u64 = bytes_of(c);
        self.index = self.index + 1;
        self.offset = self.offset + bytes;
        if c == '\n' {
            self.line = self.line + 1;
            self.column = 1;
        } else {
            self.column = self.column + 1;
        }
    }

    /// Advances to `end`.
    fn advance_to(&mut self, end: usize, Ghost(source): Ghost<Seq<char>>)
        requires
            old(self).valid(source),
            old(self).index <= end <= source.len(),
        ensures
            final(self).valid(source),
            final(self).index == end,
    {
        while self.index < end
            invariant
                self.valid(source),
                self.index <= end <= source.len(),
            decreases end - self.index,
        {
            self.advance(Ghost(source));
        }
    }

    /// The range from `start` to here.
    fn range(&self, start: SourcePosition) -> (range: SourceRange)
        ensures
            range == SourceRange::made_or(
                start,
                SourcePosition { line: self.line, column: self.column, offset: self.offset },
                SourceRange::at_origin(),
            ),
    {
        SourceRange::new_or(start, self.position(), SourceRange::origin())
    }

    fn skip_white(&self) -> (found: (usize, bool))
        requires
            self.index <= self.characters@.len(),
        ensures
            found.0 == white_end(self.characters@, self.index as int),
            self.index <= found.0 <= self.characters@.len(),
            found.1 == self.characters@.subrange(self.index as int, found.0 as int).contains('\n'),
    {
        let ghost source = self.characters@;
        let mut at: usize = self.index;
        let mut newline = false;
        while at < self.characters.len() && is_white_space(self.characters[at])
            invariant
                self.index <= at <= source.len(),
                source == self.characters@,
                white_end(source, self.index as int) == white_end(source, at as int),
                newline == source.subrange(self.index as int, at as int).contains('\n'),
            decreases source.len() - at,
        {
            let c: char = self.characters[at];
            proof {
                let whole = source.subrange(self.index as int, at + 1);
                let part = source.subrange(self.index as int, at as int);
                assert(whole =~= part.push(c));
                assert(whole.last() == c);
                if part.contains('\n') {
                    let k = choose|k: int| 0 <= k < part.len() && part[k] == '\n';
                    assert(whole[k] == '\n');
                }
                if whole.contains('\n') && c != '\n' {
                    let k = choose|k: int| 0 <= k < whole.len() && whole[k] == '\n';
                    assert(part[k] == '\n');
                }
                if c == '\n' {
                    assert(whole[part.len() as int] == '\n');
                }
            }
            if c == '\n' {
                newline = true;
            }
            at = at + 1;
        }
        (at, newline)
    }

    fn find_line_end(&self, from: usize) -> (end: usize)
        requires
            from <= self.characters@.len(),
        ensures
            end == line_end(self.characters@, from as int),
            from <= end <= self.characters@.len(),
    {
        let mut at: usize = from;
        while at < self.characters.len() && self.characters[at] != '\n'
            invariant
                from <= at <= self.characters@.len(),
                line_end(self.characters@, from as int) == line_end(self.characters@, at as int),
            decreases self.characters@.len() - at,
        {
            at = at + 1;
        }
        at
    }

    fn find_close(&self, from: usize) -> (close: Option<usize>)
        requires
            from <= self.characters@.len(),
        ensures
            match close {
                Some(at) => comment_close(self.characters@, from as int) == Some(at as int) && from
                    <= at && at + 2 <= self.characters.len(),
                None => comment_close(self.characters@, from as int) is None,
            },
    {
        let mut at: usize = from;
        while at < self.characters.len()
            invariant
                from <= at <= self.characters@.len(),
                comment_close(self.characters@, from as int) == comment_close(
                    self.characters@,
                    at as int,
                ),
            decreases self.characters@.len() - at,
        {
            if self.characters[at] == '*' && self.characters.len() - at > 1 && self.characters[at
                + 1] == '/' {
                return Some(at);
            }
            at = at + 1;
        }
        None
    }

    fn find_word_end(&self, from: usize) -> (end: usize)
        requires
            from <= self.characters@.len(),
        ensures
            end == word_end(self.characters@, from as int),
            from <= end <= self.characters@.len(),
    {
        let mut at: usize = from;
        while at < self.characters.len() && is_xid_continue(self.characters[at])
            invariant
                from <= at <= self.characters@.len(),
                word_end(self.characters@, from as int) == word_end(self.characters@, at as int),
            decreases self.characters@.len() - at,
        {
            at = at + 1;
        }
        at
    }

    fn find_digit_end(&self, from: usize) -> (end: usize)
        requires
            from <= self.characters@.len(),
        ensures
            end == digit_end(self.characters@, from as int),
            from <= end <= self.characters@.len(),
    {
        let mut at: usize = from;
        while at < self.characters.len() && self.characters[at] >= '0' && self.characters[at] <= '9'
            invariant
                from <= at <= self.characters@.len(),
                digit_end(self.characters@, from as int) == digit_end(self.characters@, at as int),
            decreases self.characters@.len() - at,
        {
            at = at + 1;
        }
        at
    }

    fn find_hex_end(&self, from: usize) -> (end: usize)
        requires
            from <= self.characters@.len(),
        ensures
            end == hex_end(self.characters@, from as int),
            from <= end <= self.characters@.len(),
            forall|i: int| from <= i < end ==> hexadecimal(#[trigger] self.characters@[i]),
    {
        let mut at: usize = from;
        while at < self.characters.len() && is_hexadecimal(self.characters[at])
            invariant
                from <= at <= self.characters@.len(),
                hex_end(self.characters@, from as int) == hex_end(self.characters@, at as int),
                forall|i: int| from <= i < at ==> hexadecimal(#[trigger] self.characters@[i]),
            decreases self.characters@.len() - at,
        {
            at = at + 1;
        }
        at
    }
}

fn is_hexadecimal(c: char) -> (answer: bool)
    ensures
        answer == hexadecimal(c),
{
    (c >= '0' && c <= '9') || (c >= 'a' && c <= 'f') || (c >= 'A' && c <= 'F')
}

fn hex_digit(c: char) -> (value: u32)
    requires
        hexadecimal(c),
    ensures
        value == hex_value(c),
        value < 16,
{
    if c >= '0' && c <= '9' {
        c as u32 - 48
    } else if c >= 'a' && c <= 'f' {
        c as u32 - 97 + 10
    } else {
        c as u32 - 65 + 10
    }
}

/// The value of hexadecimal digits, where it fits in 32 bits.
fn read_hex(characters: &Vec<char>, from: usize, to: usize) -> (value: Option<u32>)
    requires
        from <= to <= characters@.len(),
        forall|i: int| from <= i < to ==> hexadecimal(#[trigger] characters@[i]),
    ensures
        match value {
            Some(number) => number == hex_number(characters@.subrange(from as int, to as int)),
            None => hex_number(characters@.subrange(from as int, to as int)) > 0xffff_ffff,
        },
{
    let ghost source = characters@;
    let mut value: u64 = 0;
    let mut at: usize = from;
    while at < to
        invariant
            from <= at <= to <= source.len(),
            source == characters@,
            forall|i: int| from <= i < to ==> hexadecimal(#[trigger] source[i]),
            value == hex_number(source.subrange(from as int, at as int)),
            value <= 0xffff_ffff,
        decreases to - at,
    {
        proof {
            let next = source.subrange(from as int, at + 1);
            assert(next.drop_last() =~= source.subrange(from as int, at as int));
            assert(next.last() == source[at as int]);
        }
        value = value * 16 + hex_digit(characters[at]) as u64;
        at = at + 1;
        if value > 0xffff_ffff {
            proof {
                hex_grows(source, from as int, at as int, to as int);
            }
            return None;
        }
    }
    Some(value as u32)
}

/// More digits make no smaller number.
proof fn hex_grows(source: Seq<char>, from: int, middle: int, to: int)
    requires
        0 <= from <= middle <= to <= source.len(),
        forall|i: int| from <= i < to ==> hexadecimal(#[trigger] source[i]),
        hex_number(source.subrange(from, middle)) >= 0,
    ensures
        hex_number(source.subrange(from, to)) >= hex_number(source.subrange(from, middle)),
    decreases to - middle,
{
    if middle < to {
        let next = source.subrange(from, middle + 1);
        assert(next.drop_last() =~= source.subrange(from, middle));
        assert(next.last() == source[middle]);
        hex_grows(source, from, middle + 1, to);
    }
}

/// The character an escape stands for, and the index behind it.
fn read_escape(characters: &Vec<char>, lexer: &Lexer, at: usize) -> (read: Result<
    (char, usize),
    (String, usize),
>)
    requires
        characters@ == lexer.characters@,
        at <= characters.len(),
    ensures
        match read {
            Ok((c, next)) => escaped(characters@, at as int) == Ok::<(char, int), Fault>(
                (c, next as int),
            ) && at < next <= characters.len(),
            Err((message, reached)) => escaped(characters@, at as int) == Err::<(char, int), Fault>(
                Fault { message: message@, reached: reached as int },
            ) && at <= reached <= characters.len(),
        },
{
    if at >= characters.len() {
        return Err(("an unterminated escape sequence".to_owned(), at));
    }
    let c: char = characters[at];
    if c == '"' {
        return Ok(('"', at + 1));
    }
    if c == '\\' {
        return Ok(('\\', at + 1));
    }
    if c == 'n' {
        return Ok(('\n', at + 1));
    }
    if c == 'r' {
        return Ok(('\r', at + 1));
    }
    if c == 't' {
        return Ok(('\t', at + 1));
    }
    if c != 'u' {
        let mut message = "unknown escape sequence `\\".to_owned();
        message.push(c);
        message.append("`");
        assert(message@ =~= "unknown escape sequence `\\"@ + seq![c] + "`"@);
        return Err((message, at + 1));
    }
    if characters.len() - at == 1 {
        return Err(("a unicode escape needs `u{`".to_owned(), at + 1));
    }
    if characters[at + 1] != '{' {
        return Err(("a unicode escape needs `u{`".to_owned(), at + 2));
    }
    let end = lexer.find_hex_end(at + 2);
    if end >= characters.len() {
        return Err(("an unterminated unicode escape".to_owned(), end));
    }
    if characters[end] != '}' {
        return Err(("a unicode escape takes hexadecimal digits".to_owned(), end));
    }
    if end == at + 2 {
        return Err(("a unicode escape is out of range".to_owned(), end + 1));
    }
    match read_hex(characters, at + 2, end) {
        None => Err(("a unicode escape is out of range".to_owned(), end + 1)),
        Some(number) => match to_scalar(number) {
            None => Err(("a unicode escape names no scalar value".to_owned(), end + 1)),
            Some(scalar) => Ok((scalar, end + 1)),
        },
    }
}

/// `char::from_u32`: the character with a number, where the number is a Unicode scalar
/// value.
#[verifier::external_body]
fn to_scalar(number: u32) -> (found: Option<char>)
    ensures
        match found {
            Some(c) => scalar_value(number as int) && c == number as char,
            None => !scalar_value(number as int),
        },
{
    char::from_u32(number)
}

/// The rest of a string literal, from behind its opening quote.
fn read_string(lexer: &Lexer, from: usize) -> (read: Result<(String, usize), (String, usize)>)
    requires
        from <= lexer.characters.len(),
    ensures
        match read {
            Ok((text, next)) => string_rest(lexer.characters@, from as int, Seq::empty()) == Ok::<
                (Seq<char>, int),
                Fault,
            >((text@, next as int)) && from < next <= lexer.characters.len(),
            Err((message, reached)) => string_rest(lexer.characters@, from as int, Seq::empty())
                == Err::<(Seq<char>, int), Fault>(
                Fault { message: message@, reached: reached as int },
            ) && from <= reached <= lexer.characters.len(),
        },
{
    let characters = &lexer.characters;
    let ghost source = characters@;
    let mut text = String::new();
    let mut at: usize = from;
    loop
        invariant
            from <= at <= characters.len(),
            *characters == lexer.characters,
            source == characters@,
            string_rest(source, from as int, Seq::empty()) == string_rest(source, at as int, text@),
        decreases source.len() - at,
    {
        if at >= characters.len() {
            return Err(("an unterminated string literal".to_owned(), at));
        }
        let c: char = characters[at];
        if c == '"' {
            return Ok((text, at + 1));
        }
        if c == '\n' || c == '\r' {
            return Err(("a line terminator inside a string literal".to_owned(), at));
        }
        if c == '\\' {
            match read_escape(characters, lexer, at + 1) {
                Err((message, reached)) => {
                    return Err((message, reached));
                }
                Ok((scalar, next)) => {
                    text.push(scalar);
                    at = next;
                }
            }
        } else {
            text.push(c);
            at = at + 1;
        }
    }
}

/// A token without its position.
struct Found {
    kind: TokenKind,
    text: String,
    bytes: Vec<u8>,
    next: usize,
}

spec fn matches_piece(
    read: Result<Found, (String, usize)>,
    wanted: Result<Piece, Fault>,
    source: Seq<char>,
    at: int,
) -> bool {
    match read {
        Ok(found) => wanted == Ok::<Piece, Fault>(
            Piece {
                kind: found.kind,
                text: found.text@,
                bytes: found.bytes@,
                next: found.next as int,
            },
        ) && at < found.next <= source.len(),
        Err((message, reached)) => wanted == Err::<Piece, Fault>(
            Fault { message: message@, reached: reached as int },
        ) && at <= reached <= source.len(),
    }
}

fn found(kind: TokenKind, text: String, next: usize) -> (made: Found)
    ensures
        made.kind == kind,
        made.text == text,
        made.bytes@ == Seq::<u8>::empty(),
        made.next == next,
{
    Found { kind, text, bytes: Vec::new(), next }
}

fn read_bytes_literal(lexer: &Lexer, at: usize) -> (read: Result<Found, (String, usize)>)
    requires
        at < lexer.characters.len(),
    ensures
        matches_piece(
            read,
            bytes_piece(lexer.characters@, at as int),
            lexer.characters@,
            at as int,
        ),
{
    let characters = &lexer.characters;
    let end = lexer.find_hex_end(at + 1);
    if end >= characters.len() {
        return Err(("an unterminated bytes literal".to_owned(), end));
    }
    if characters[end] != '"' {
        return Err(("a bytes literal takes hexadecimal digits".to_owned(), end));
    }
    let count: usize = end - (at + 1);
    if count % 2 != 0 {
        return Err(
            ("a bytes literal needs an even number of hexadecimal digits".to_owned(), end + 1),
        );
    }
    let ghost digits = characters@.subrange(at + 1, end as int);
    let mut bytes: Vec<u8> = Vec::new();
    let mut pair: usize = 0;
    while pair < count / 2
        invariant
            pair <= count / 2,
            count % 2 == 0,
            count == end - (at + 1),
            end < characters.len(),
            *characters == lexer.characters,
            digits == characters@.subrange(at + 1, end as int),
            forall|i: int| at + 1 <= i < end ==> hexadecimal(#[trigger] characters@[i]),
            bytes@ == hex_bytes(digits).take(pair as int),
        decreases count / 2 - pair,
    {
        let first: usize = at + 1 + 2 * pair;
        assert(characters@[first as int] == digits[2 * pair as int]);
        assert(characters@[first + 1] == digits[2 * pair as int + 1]);
        let high: u32 = hex_digit(characters[first]);
        let low: u32 = hex_digit(characters[first + 1]);
        bytes.push((high * 16 + low) as u8);
        pair = pair + 1;
        assert(bytes@ =~= hex_bytes(digits).take(pair as int));
    }
    assert(hex_bytes(digits).take(count as int / 2) =~= hex_bytes(digits));
    Ok(
        Found {
            kind: TokenKind::BytesLiteral,
            text: string_of(characters, at + 1, end),
            bytes,
            next: end + 1,
        },
    )
}

fn read_number(lexer: &Lexer, at: usize) -> (read: Result<Found, (String, usize)>)
    requires
        at < lexer.characters.len(),
        lexer.characters@[at as int] == '-' || is_digit(lexer.characters@[at as int]),
    ensures
        matches_piece(
            read,
            number_piece(lexer.characters@, at as int),
            lexer.characters@,
            at as int,
        ),
{
    let characters = &lexer.characters;
    let ghost source = characters@;
    let first: usize = if characters[at] == '-' {
        at + 1
    } else {
        at
    };
    let whole = lexer.find_digit_end(first);
    if whole == first {
        return Err(("expected a digit after `-`".to_owned(), first));
    }
    let mut mark: usize = whole;
    if whole < characters.len() && characters[whole] == '.' {
        mark = lexer.find_digit_end(whole + 1);
        if mark == whole + 1 {
            return Err(("a float needs a digit after `.`".to_owned(), whole + 1));
        }
    }
    assert(fraction_part(source, whole as int) == Ok::<int, Fault>(mark as int));
    if mark < characters.len() && (characters[mark] == 'e' || characters[mark] == 'E') {
        let mut digits: usize = mark + 1;
        if digits < characters.len() && (characters[digits] == '+' || characters[digits] == '-') {
            digits = digits + 1;
        }
        let end = lexer.find_digit_end(digits);
        if end == digits {
            return Err(("an exponent needs at least one digit".to_owned(), digits));
        }
        let mut text = string_of(characters, at, mark);
        text.push('e');
        text.append(string_of(characters, mark + 1, end).as_str());
        return Ok(found(TokenKind::FloatLiteral, text, end));
    }
    let kind = if mark == whole {
        TokenKind::IntegerLiteral
    } else {
        TokenKind::FloatLiteral
    };
    Ok(found(kind, string_of(characters, at, mark), mark))
}

fn read_directive(lexer: &Lexer, at: usize) -> (read: Result<Found, (String, usize)>)
    requires
        at < lexer.characters.len(),
    ensures
        matches_piece(
            read,
            directive_piece(lexer.characters@, at as int),
            lexer.characters@,
            at as int,
        ),
{
    let end = lexer.find_word_end(at + 1);
    let word = string_of(&lexer.characters, at + 1, end);
    let kind = if same(word.as_str(), "nost") {
        TokenKind::NostDirective
    } else if same(word.as_str(), "link") {
        TokenKind::LinkDirective
    } else if same(word.as_str(), "by") {
        TokenKind::ByDirective
    } else if same(word.as_str(), "evidence") {
        TokenKind::EvidenceDirective
    } else {
        let mut message = joined("unknown directive `@", word.as_str());
        message.append("`, expected `@nost` or `@link`");
        return Err((message, end));
    };
    Ok(found(kind, word, end))
}

fn read_word(lexer: &Lexer, at: usize) -> (read: Result<Found, (String, usize)>)
    requires
        at < lexer.characters.len(),
    ensures
        matches_piece(
            read,
            word_piece(lexer.characters@, at as int),
            lexer.characters@,
            at as int,
        ),
{
    let characters = &lexer.characters;
    let end = lexer.find_word_end(at + 1);
    let word = string_of(characters, at, end);
    let tagged = end < characters.len() && characters[end] == '"';
    if tagged && same(word.as_str(), "bytes") {
        return read_bytes_literal(lexer, end);
    }
    if tagged && same(word.as_str(), "datetime") {
        return match read_string(lexer, end + 1) {
            Err((message, reached)) => Err((message, reached)),
            Ok((text, next)) => Ok(found(TokenKind::DateTimeLiteral, text, next)),
        };
    }
    let kind = match Keyword::from_text(word.as_str()) {
        Some(keyword) => TokenKind::Keyword(keyword),
        None => TokenKind::Identifier,
    };
    Ok(found(kind, word, end))
}

fn single_kind(c: char) -> (kind: Option<TokenKind>)
    ensures
        kind == single(c),
{
    if c == '{' {
        Some(TokenKind::LeftBrace)
    } else if c == '}' {
        Some(TokenKind::RightBrace)
    } else if c == '(' {
        Some(TokenKind::LeftParen)
    } else if c == ')' {
        Some(TokenKind::RightParen)
    } else if c == '[' {
        Some(TokenKind::LeftBracket)
    } else if c == ']' {
        Some(TokenKind::RightBracket)
    } else if c == ',' {
        Some(TokenKind::Comma)
    } else if c == '?' {
        Some(TokenKind::Question)
    } else {
        None
    }
}

fn read_comment(lexer: &Lexer, at: usize) -> (read: Result<Found, (String, usize)>)
    requires
        at + 1 < lexer.characters.len(),
        lexer.characters@[at as int] == '/',
        lexer.characters@[at + 1] == '/' || lexer.characters@[at + 1] == '*',
    ensures
        matches_piece(
            read,
            piece_at(lexer.characters@, at as int),
            lexer.characters@,
            at as int,
        ),
{
    let characters = &lexer.characters;
    assert(!white_space('/'));
    if characters[at + 1] == '/' {
        let end = lexer.find_line_end(at + 2);
        let whole = characters_between(characters, at + 2, end);
        let (from, to) = trim_bounds(&whole);
        return Ok(
            found(TokenKind::Trivia(TriviaKind::LineComment), string_of(&whole, from, to), end),
        );
    }
    match lexer.find_close(at + 2) {
        None => Err(("an unterminated block comment".to_owned(), characters.len())),
        Some(close) => Ok(
            found(
                TokenKind::Trivia(TriviaKind::BlockComment),
                string_of(characters, at + 2, close),
                close + 2,
            ),
        ),
    }
}

fn characters_between(characters: &Vec<char>, from: usize, to: usize) -> (part: Vec<char>)
    requires
        from <= to <= characters@.len(),
    ensures
        part@ == characters@.subrange(from as int, to as int),
{
    let mut part: Vec<char> = Vec::new();
    let mut at: usize = from;
    while at < to
        invariant
            from <= at <= to <= characters@.len(),
            part@ == characters@.subrange(from as int, at as int),
        decreases to - at,
    {
        part.push(characters[at]);
        at = at + 1;
        assert(part@ =~= characters@.subrange(from as int, at as int));
    }
    part
}

/// The token at the lexer's index, without its position.
fn read_piece(lexer: &Lexer) -> (read: Result<Found, (String, usize)>)
    requires
        lexer.index < lexer.characters.len(),
    ensures
        matches_piece(
            read,
            piece_at(lexer.characters@, lexer.index as int),
            lexer.characters@,
            lexer.index as int,
        ),
{
    let at = lexer.index;
    let ghost source = lexer.characters@;
    proof {
        pieces_are_bounded(source, at as int);
    }
    let c: char = lexer.characters[at];
    let second = lexer.peek_second();
    if is_white_space(c) {
        let (end, _) = lexer.skip_white();
        return Ok(found(TokenKind::Trivia(TriviaKind::Whitespace), String::new(), end));
    }
    if c == '/' && (second == Some('/') || second == Some('*')) {
        return read_comment(lexer, at);
    }
    if c == '@' {
        return read_directive(lexer, at);
    }
    if c == '"' {
        return match read_string(lexer, at + 1) {
            Err((message, reached)) => Err((message, reached)),
            Ok((text, next)) => Ok(found(TokenKind::StringLiteral, text, next)),
        };
    }
    match single_kind(c) {
        Some(kind) => {
            let mut text = String::new();
            text.push(c);
            assert(text@ =~= seq![c]);
            return Ok(found(kind, text, at + 1));
        }
        None => {}
    }
    if c == ':' {
        if second == Some(':') {
            return Ok(found(TokenKind::ColonColon, String::new(), at + 2));
        }
        return Ok(found(TokenKind::Colon, String::new(), at + 1));
    }
    if c == '-' && second == Some('>') {
        return Ok(found(TokenKind::Arrow, "->".to_owned(), at + 2));
    }
    if c == '-' || (c >= '0' && c <= '9') {
        return read_number(lexer, at);
    }
    if starts_name(c) || c == '_' {
        return read_word(lexer, at);
    }
    Err((joined("unexpected character ", show_debug(c).as_str()), at))
}

/// Splits `source` into tokens, trivia included, ending with [`TokenKind::Eof`].
///
/// An unterminated string or block comment, a line terminator inside a string, a malformed
/// number or tagged literal, and a character the grammar does not allow are errors, each
/// with the range from where the token starts to where the problem showed.
pub fn tokenize(source: &str) -> (read: Result<Vec<Token>, ParseError>)
    requires
        countable(source@),
    ensures
        match read {
            Ok(tokens) => tokens_of(source@) == Ok::<Seq<TokenModel>, ParseErrorModel>(
                views(tokens@),
            ),
            Err(error) => tokens_of(source@) == Err::<Seq<TokenModel>, ParseErrorModel>(error@),
        },
{
    let mut lexer = Lexer {
        characters: characters(source),
        index: 0,
        line: 1,
        column: 1,
        offset: 0,
    };
    let ghost all = source@;
    let mut tokens: Vec<Token> = Vec::new();
    let mut own_line = true;
    assert(views(tokens@) =~= Seq::<TokenModel>::empty());
    while lexer.index < lexer.characters.len()
        invariant
            all == source@,
            lexer.valid(all),
            tokens_of(all) == lexed(all, lexer.index as int, own_line, views(tokens@)),
        decreases all.len() - lexer.index,
    {
        let start = lexer.position();
        let ghost at = lexer.index as int;
        match read_piece(&lexer) {
            Err((message, reached)) => {
                lexer.advance_to(reached, Ghost(all));
                let range = lexer.range(start);
                assert(range == range_of(all, at, reached as int));
                return Err(ParseError { message, range });
            }
            Ok(found) => {
                let (_, newline) = lexer.skip_white();
                let white = match found.kind {
                    TokenKind::Trivia(TriviaKind::Whitespace) => true,
                    _ => false,
                };
                lexer.advance_to(found.next, Ghost(all));
                let token = Token {
                    kind: found.kind,
                    range: lexer.range(start),
                    text: found.text,
                    bytes: found.bytes,
                    on_own_line: own_line,
                };
                proof {
                    if white {
                        assert(white_space(all[at]));
                    }
                    views_push(tokens@, token);
                }
                own_line = white && (own_line || newline);
                tokens.push(token);
            }
        }
    }
    let start = lexer.position();
    let token = Token {
        kind: TokenKind::Eof,
        range: lexer.range(start),
        text: String::new(),
        bytes: Vec::new(),
        on_own_line: own_line,
    };
    proof {
        views_push(tokens@, token);
    }
    tokens.push(token);
    Ok(tokens)
}

// -- Laws --------------------------------------------------------------------------

/// Whether a token ends where the next one starts.
pub open spec fn meets_next(tokens: Seq<TokenModel>, i: int) -> bool {
    tokens[i].range.to() == tokens[i + 1].range.from()
}

/// Whether tokens stand one behind the other, from the start of a source up to a place.
pub open spec fn tiled(source: Seq<char>, tokens: Seq<TokenModel>, to: int) -> bool {
    &&& tokens.len() > 0 ==> tokens[0].range.from() == position_at(source, 0)
    &&& tokens.len() > 0 ==> tokens.last().range.to() == position_at(source, to)
    &&& tokens.len() == 0 ==> to == 0
    &&& forall|i: int| 0 <= i < tokens.len() - 1 ==> #[trigger] meets_next(tokens, i)
}

proof fn one_more_tile(source: Seq<char>, tokens: Seq<TokenModel>, at: int, next: int, token: TokenModel)
    requires
        countable(source),
        0 <= at <= next <= source.len(),
        tiled(source, tokens, at),
        token.range == range_of(source, at, next),
    ensures
        tiled(source, tokens.push(token), next),
{
    range_is_exact(source, at, next);
    let more = tokens.push(token);
    assert forall|i: int| 0 <= i < more.len() - 1 implies #[trigger] meets_next(more, i) by {
        assert(more[i] == tokens[i]);
        if i < tokens.len() - 1 {
            assert(meets_next(tokens, i));
            assert(more[i + 1] == tokens[i + 1]);
        }
    }
    if tokens.len() > 0 {
        assert(more[0] == tokens[0]);
    }
}

proof fn lexed_is_tiled(source: Seq<char>, at: int, own_line: bool, before: Seq<TokenModel>)
    requires
        countable(source),
        0 <= at <= source.len(),
        tiled(source, before, at),
    ensures
        lexed(source, at, own_line, before) matches Ok(tokens) ==> tiled(
            source,
            tokens,
            source.len() as int,
        ),
    decreases source.len() - at,
{
    if at < source.len() {
        pieces_are_bounded(source, at);
        if let Ok(found) = piece_at(source, at) {
            let token = token_of(source, at, found, own_line);
            one_more_tile(source, before, at, found.next, token);
            lexed_is_tiled(
                source,
                found.next,
                starts_line(source, at, found, own_line),
                before.push(token),
            );
        }
    } else if let Ok(tokens) = lexed(source, at, own_line, before) {
        one_more_tile(source, before, at, at, tokens.last());
        assert(tokens =~= before.push(tokens.last()));
    }
}

proof fn tokens_are_there(source: Seq<char>, at: int, own_line: bool, before: Seq<TokenModel>)
    requires
        0 <= at <= source.len(),
    ensures
        lexed(source, at, own_line, before) matches Ok(tokens) ==> tokens.len() > before.len(),
    decreases source.len() - at,
{
    if at < source.len() {
        pieces_are_bounded(source, at);
        if let Ok(found) = piece_at(source, at) {
            tokens_are_there(
                source,
                found.next,
                starts_line(source, at, found, own_line),
                before.push(token_of(source, at, found, own_line)),
            );
        }
    }
}

/// The lexer leaves nothing out: trivia among them, the tokens of a source stand one behind
/// the other, from its start to its end, and each starts where the one before it ends.
pub proof fn tokens_cover_the_source(source: Seq<char>)
    requires
        countable(source),
    ensures
        tokens_of(source) matches Ok(tokens) ==> tokens.len() > 0 && tiled(
            source,
            tokens,
            source.len() as int,
        ),
{
    lexed_is_tiled(source, 0, true, Seq::empty());
    tokens_are_there(source, 0, true, Seq::empty());
}

} // verus!
