//! Recursive-descent parser for `.nost`.
//!
//! Comment attachment is implemented once, here, by two operations. Before and within a
//! construct, comments accumulate as its leading comments. Immediately after a construct, or
//! the brace that opens its block, a comment on the same line is taken as its trailing
//! comment. Anything left when a block closes attaches to that block, as does a comment
//! behind the brace that closes it, which trails the block where nothing stands in it.

use super::remarks::few_enough;
use super::lexer::countable;
use super::lexer::lexed;
use super::lexer::piece_at;
use super::lexer::pieces_are_bounded;
use super::lexer::starts_line;
use super::lexer::token_of;
use super::lexer::tokenize;
use super::lexer::tokens_of;
use super::lexer::Keyword;
use super::lexer::Token;
use super::lexer::TokenKind;
use super::lexer::TokenModel;
use super::lexer::TriviaKind;
use super::Comment;
use super::CommentModel;
use super::Comments;
use super::CommentsModel;
use super::ContributionBlock;
use super::ContributionBlockModel;
use super::DeclarationRef;
use super::EdgeDeclaration;
use super::EdgeDeclarationModel;
use super::Endpoint;
use super::EndpointConstraint;
use super::EndpointConstraintModel;
use super::EndpointModel;
use super::EvidenceBlock;
use super::EvidenceBlockModel;
use super::EvidenceField;
use super::EvidenceFieldModel;
use super::EvidenceValue;
use super::EvidenceValueModel;
use super::LinkDeclaration;
use super::LinkDeclarationModel;
use super::list_model;
use super::NodeDeclaration;
use super::NodeDeclarationModel;
use super::OwnerDeclaration;
use super::OwnerDeclarationModel;
use super::ParseError;
use super::ParseErrorModel;
use super::Property;
use super::PropertyModel;
use super::RecordBody;
use super::RecordBodyModel;
use super::SchemaDeclaration;
use super::SchemaDeclarationModel;
use super::SchemaField;
use super::SchemaFieldModel;
use super::SourceFile;
use super::SourceFileModel;
use super::Spanned;
use super::optional_comment;
use super::Value;
use super::ValueModel;
use crate::copies::Copied;
use crate::evidence::SourceRange;
use crate::number::parse_unsigned;
use crate::number::read_unsigned;
use crate::property::copy_bytes;
use crate::schema::FieldType;
use crate::schema::ScalarType;
use crate::text::joined;
use crate::text::same;
use crate::text::view_of;
use crate::text::views;
use crate::text::views_push;
use vstd::prelude::*;
use vstd::string::StringExecFns;

verus! {

// -- Where the parser is -----------------------------------------------------------

/// Where the parser is: the index of the next token, and the comments read since the last
/// construct that took comments.
pub struct Cursor {
    /// The index of the next token.
    pub index: int,
    /// The comments that lead the next construct.
    pub pending: Seq<CommentModel>,
}

/// What a parser makes of the tokens from a cursor on: a value and the cursor behind it.
pub type Parsed<A> = Result<(A, Cursor), ParseErrorModel>;

/// What stands at a cursor, which is the end of input behind the last token.
pub open spec fn here(tokens: Seq<TokenModel>, cursor: Cursor) -> TokenModel {
    if 0 <= cursor.index < tokens.len() {
        tokens[cursor.index]
    } else {
        TokenModel {
            kind: TokenKind::Eof,
            range: SourceRange::at_origin(),
            text: Seq::empty(),
            bytes: Seq::empty(),
            on_own_line: false,
        }
    }
}

/// The kind of what stands at a cursor.
pub open spec fn kind(tokens: Seq<TokenModel>, cursor: Cursor) -> TokenKind {
    here(tokens, cursor).kind
}

/// The cursor behind one more token.
pub open spec fn step(cursor: Cursor) -> Cursor {
    Cursor { index: cursor.index + 1, pending: cursor.pending }
}

/// The cursor after its comments were taken.
pub open spec fn taken(cursor: Cursor) -> Cursor {
    Cursor { index: cursor.index, pending: Seq::empty() }
}

/// An error at a cursor.
pub open spec fn wrong_here<A>(
    tokens: Seq<TokenModel>,
    cursor: Cursor,
    message: Seq<char>,
) -> Parsed<A> {
    Err(ParseErrorModel { message, range: here(tokens, cursor).range })
}

/// Whether a token is a comment.
pub open spec fn is_comment(token: TokenModel) -> bool {
    token.kind == TokenKind::Trivia(TriviaKind::LineComment) || token.kind == TokenKind::Trivia(
        TriviaKind::BlockComment,
    )
}

/// The comment a token holds.
pub open spec fn comment_of(token: TokenModel) -> CommentModel {
    CommentModel {
        text: token.text,
        block: token.kind == TokenKind::Trivia(TriviaKind::BlockComment),
        range: token.range,
    }
}

/// The cursor behind the trivia, whose comments are pending.
pub open spec fn skip(tokens: Seq<TokenModel>, cursor: Cursor) -> Cursor
    decreases tokens.len() - cursor.index,
{
    if !(0 <= cursor.index < tokens.len()) {
        cursor
    } else if kind(tokens, cursor) == TokenKind::Trivia(TriviaKind::Whitespace) {
        skip(tokens, step(cursor))
    } else if is_comment(here(tokens, cursor)) {
        skip(
            tokens,
            Cursor {
                index: cursor.index + 1,
                pending: cursor.pending.push(comment_of(here(tokens, cursor))),
            },
        )
    } else {
        cursor
    }
}

/// The comment on the same line as what stands before `index`, and the index behind it.
pub open spec fn trailing_at(tokens: Seq<TokenModel>, index: int) -> Option<(CommentModel, int)>
    decreases tokens.len() - index,
{
    if !(0 <= index < tokens.len()) {
        None
    } else if tokens[index].kind == TokenKind::Trivia(TriviaKind::Whitespace) {
        trailing_at(tokens, index + 1)
    } else if is_comment(tokens[index]) && !tokens[index].on_own_line {
        Some((comment_of(tokens[index]), index + 1))
    } else {
        None
    }
}

/// The comment on the same line, if there is one, and the cursor behind it.
pub open spec fn trailing(tokens: Seq<TokenModel>, cursor: Cursor) -> (Option<CommentModel>, Cursor) {
    match trailing_at(tokens, cursor.index) {
        Some((comment, index)) => (
            Some(comment),
            Cursor { index, pending: cursor.pending },
        ),
        None => (None, cursor),
    }
}

// -- Single tokens -----------------------------------------------------------------

/// A token of one kind.
pub open spec fn expected(
    tokens: Seq<TokenModel>,
    cursor: Cursor,
    wanted: TokenKind,
    what: Seq<char>,
) -> Parsed<TokenModel> {
    let at = skip(tokens, cursor);
    if kind(tokens, at) == wanted {
        Ok((here(tokens, at), step(at)))
    } else {
        wrong_here(tokens, at, "expected "@ + what)
    }
}

/// Whether a token of one kind stands next, and the cursor behind it if it does.
pub open spec fn eaten(tokens: Seq<TokenModel>, cursor: Cursor, wanted: TokenKind) -> (bool, Cursor) {
    let at = skip(tokens, cursor);
    if kind(tokens, at) == wanted {
        (true, step(at))
    } else {
        (false, at)
    }
}

/// The comments of a construct that ends at a cursor, or whose head does: those that led it,
/// those within it, and the one that trails it on the same line. And the cursor behind them.
pub open spec fn remarked(
    tokens: Seq<TokenModel>,
    cursor: Cursor,
    leading: Seq<CommentModel>,
) -> (CommentsModel, Cursor) {
    let (comment, next) = trailing(tokens, taken(cursor));
    (CommentsModel { leading: leading + cursor.pending, trailing: comment }, next)
}

/// The comments of a block whose brace was closed in front of a cursor, and those at its end:
/// the one that follows the brace on the same line trails the block where nothing stands in
/// it, and otherwise comes behind those left within it. And the cursor behind them.
pub open spec fn closed(
    tokens: Seq<TokenModel>,
    cursor: Cursor,
    comments: CommentsModel,
    hollow: bool,
    left: Seq<CommentModel>,
) -> (CommentsModel, Seq<CommentModel>, Cursor) {
    let (comment, next) = trailing(tokens, cursor);
    if hollow && comments.trailing is None && left.len() == 0 {
        (CommentsModel { leading: comments.leading, trailing: comment }, left, next)
    } else {
        (comments, left + optional_comment(comment), next)
    }
}

/// Whether a comma closes an entry, the comments of the entry, of which one may trail it on
/// either side of the comma, and the cursor behind all of them.
pub open spec fn entry_end(tokens: Seq<TokenModel>, cursor: Cursor, leading: Seq<CommentModel>) -> (
    bool,
    CommentsModel,
    Cursor,
) {
    let (first, behind) = remarked(tokens, cursor, leading);
    let (separated, next) = eaten(tokens, behind, TokenKind::Comma);
    if first.trailing is Some || !separated {
        (separated, first, next)
    } else {
        let (second, last) = remarked(tokens, next, first.leading);
        (true, second, last)
    }
}

/// Whether a token can stand for a name.
pub open spec fn names(kind: TokenKind) -> bool {
    kind == TokenKind::Identifier || kind == TokenKind::Keyword(Keyword::Id) || kind
        == TokenKind::Keyword(Keyword::Module) || kind == TokenKind::Keyword(Keyword::Source)
}

/// The text of a token with its range.
pub open spec fn spanned(token: TokenModel) -> Spanned<Seq<char>> {
    Spanned { value: token.text, range: token.range }
}

/// A name.
pub open spec fn identifier(
    tokens: Seq<TokenModel>,
    cursor: Cursor,
    what: Seq<char>,
) -> Parsed<Spanned<Seq<char>>> {
    let at = skip(tokens, cursor);
    if names(kind(tokens, at)) {
        Ok((spanned(here(tokens, at)), step(at)))
    } else {
        match kind(tokens, at) {
            TokenKind::Keyword(word) => wrong_here(
                tokens,
                at,
                "expected "@ + what + ", found the reserved word `"@ + word.spelling() + "`"@,
            ),
            _ => wrong_here(tokens, at, "expected "@ + what),
        }
    }
}

/// A string literal.
pub open spec fn quoted(
    tokens: Seq<TokenModel>,
    cursor: Cursor,
    what: Seq<char>,
) -> Parsed<Spanned<Seq<char>>> {
    match expected(tokens, cursor, TokenKind::StringLiteral, what) {
        Err(wrong) => Err(wrong),
        Ok((token, next)) => Ok((spanned(token), next)),
    }
}

// -- Values ------------------------------------------------------------------------

/// An edge endpoint.
pub open spec fn endpoint(tokens: Seq<TokenModel>, cursor: Cursor) -> Parsed<EndpointModel> {
    let at = skip(tokens, cursor);
    if kind(tokens, at) == TokenKind::StringLiteral {
        match quoted(tokens, at, "a locator"@) {
            Err(wrong) => Err(wrong),
            Ok((locator, second)) => match expected(
                tokens,
                second,
                TokenKind::ColonColon,
                "`::` after a locator"@,
            ) {
                Err(wrong) => Err(wrong),
                Ok((_, third)) => match identifier(tokens, third, "a declaration name"@) {
                    Err(wrong) => Err(wrong),
                    Ok((name, last)) => Ok((EndpointModel::Locator { locator, name }, last)),
                },
            },
        }
    } else {
        match identifier(tokens, at, "an endpoint"@) {
            Err(wrong) => Err(wrong),
            Ok((first, next)) => {
                let second = skip(tokens, next);
                if kind(tokens, second) == TokenKind::ColonColon {
                    match identifier(tokens, step(second), "a declaration name"@) {
                        Err(wrong) => Err(wrong),
                        Ok((name, last)) => Ok((EndpointModel::Aliased { alias: first, name }, last)),
                    }
                } else {
                    Ok((EndpointModel::Local(first), second))
                }
            },
        }
    }
}

/// The scalar a token stands for.
pub open spec fn scalar_of(token: TokenModel) -> Option<ValueModel> {
    match token.kind {
        TokenKind::Keyword(Keyword::True) => Some(ValueModel::Boolean(true)),
        TokenKind::Keyword(Keyword::False) => Some(ValueModel::Boolean(false)),
        TokenKind::IntegerLiteral => Some(ValueModel::Integer(token.text)),
        TokenKind::FloatLiteral => Some(ValueModel::Float(token.text)),
        TokenKind::StringLiteral => Some(ValueModel::String(token.text)),
        TokenKind::BytesLiteral => Some(
            ValueModel::Bytes { decoded: token.bytes, digits: token.text },
        ),
        TokenKind::DateTimeLiteral => Some(ValueModel::DateTime(token.text)),
        _ => None,
    }
}

/// A scalar.
pub open spec fn scalar(tokens: Seq<TokenModel>, cursor: Cursor) -> Parsed<Spanned<ValueModel>> {
    let at = skip(tokens, cursor);
    match scalar_of(here(tokens, at)) {
        Some(value) => Ok((Spanned { value, range: here(tokens, at).range }, step(at))),
        None => if kind(tokens, at) == TokenKind::LeftBracket {
            wrong_here(tokens, at, "a list holds scalars only, so it does not nest"@)
        } else {
            wrong_here(tokens, at, "expected a scalar value"@)
        },
    }
}

/// The scalars of a list from a cursor on, behind those already read.
pub open spec fn scalars(
    tokens: Seq<TokenModel>,
    cursor: Cursor,
    before: Seq<Spanned<ValueModel>>,
) -> Parsed<Seq<Spanned<ValueModel>>>
    decreases tokens.len() - cursor.index,
{
    proof {
        scalar_moves(tokens, cursor);
    }
    match scalar(tokens, cursor) {
        Err(wrong) => Err(wrong),
        Ok((item, next)) => {
            let comma = skip(tokens, next);
            if kind(tokens, comma) == TokenKind::Comma {
                let behind = skip(tokens, step(comma));
                proof {
                    skip_moves(tokens, next);
                    skip_moves(tokens, step(comma));
                }
                if kind(tokens, behind) == TokenKind::RightBracket {
                    wrong_here(tokens, behind, "a list takes no trailing comma"@)
                } else {
                    scalars(tokens, behind, before.push(item))
                }
            } else {
                Ok((before.push(item), comma))
            }
        },
    }
}

/// A value: a scalar or a list.
pub open spec fn value(tokens: Seq<TokenModel>, cursor: Cursor) -> Parsed<Spanned<ValueModel>> {
    let at = skip(tokens, cursor);
    if kind(tokens, at) != TokenKind::LeftBracket {
        scalar(tokens, at)
    } else {
        let open = here(tokens, at).range;
        let first = skip(tokens, step(at));
        let read = if kind(tokens, first) == TokenKind::RightBracket {
            Ok((Seq::empty(), first))
        } else {
            scalars(tokens, first, Seq::empty())
        };
        match read {
            Err(wrong) => Err(wrong),
            Ok((items, next)) => match expected(
                tokens,
                next,
                TokenKind::RightBracket,
                "`]`"@,
            ) {
                Err(wrong) => Err(wrong),
                Ok((close, last)) => Ok(
                    (
                        Spanned {
                            value: ValueModel::List(items),
                            range: SourceRange::made_or(open.from(), close.range.to(), open),
                        },
                        last,
                    ),
                ),
            },
        }
    }
}

// -- Records -----------------------------------------------------------------------

/// One property, without the comments before it, and whether a comma follows it.
pub open spec fn property(tokens: Seq<TokenModel>, cursor: Cursor) -> Parsed<(PropertyModel, bool)> {
    match identifier(tokens, taken(cursor), "a property key"@) {
        Err(wrong) => Err(wrong),
        Ok((key, second)) => match expected(
            tokens,
            second,
            TokenKind::Colon,
            "`:` after a property key"@,
        ) {
            Err(wrong) => Err(wrong),
            Ok((_, third)) => match value(tokens, third) {
                Err(wrong) => Err(wrong),
                Ok((found, fourth)) => {
                    let (separated, comments, last) = entry_end(tokens, fourth, cursor.pending);
                    Ok(
                        (
                            (
                                PropertyModel {
                                    key,
                                    value: found,
                                    comments,
                                },
                                separated,
                            ),
                            last,
                        ),
                    )
                },
            },
        },
    }
}

/// The properties of a record from a cursor on, behind those already read.
pub open spec fn properties(
    tokens: Seq<TokenModel>,
    cursor: Cursor,
    before: Seq<PropertyModel>,
) -> Parsed<Seq<PropertyModel>>
    decreases tokens.len() - cursor.index,
{
    let at = skip(tokens, cursor);
    if !names(kind(tokens, at)) {
        Ok((before, at))
    } else {
        proof {
            skip_moves(tokens, cursor);
            property_moves(tokens, at);
        }
        match property(tokens, at) {
            Err(wrong) => Err(wrong),
            Ok(((found, separated), next)) => if separated {
                properties(tokens, next, before.push(found))
            } else {
                Ok((before.push(found), next))
            },
        }
    }
}

/// A bare word with an optional score, or a quoted string.
pub open spec fn evidence_value(tokens: Seq<TokenModel>, cursor: Cursor) -> Parsed<
    Spanned<EvidenceValueModel>,
> {
    let at = skip(tokens, cursor);
    if kind(tokens, at) == TokenKind::StringLiteral {
        match quoted(tokens, at, "a quoted value"@) {
            Err(wrong) => Err(wrong),
            Ok((text, next)) => Ok(
                (Spanned { value: EvidenceValueModel::Text(text.value), range: text.range }, next),
            ),
        }
    } else {
        match identifier(tokens, at, "a quoted value or a bare word"@) {
            Err(wrong) => Err(wrong),
            Ok((name, next)) => {
                let open = skip(tokens, next);
                if kind(tokens, open) == TokenKind::LeftParen {
                    let number = skip(tokens, step(open));
                    if kind(tokens, number) == TokenKind::FloatLiteral || kind(tokens, number)
                        == TokenKind::IntegerLiteral {
                        match expected(
                            tokens,
                            step(number),
                            TokenKind::RightParen,
                            "`)` after a score"@,
                        ) {
                            Err(wrong) => Err(wrong),
                            Ok((close, last)) => Ok(
                                (
                                    Spanned {
                                        value: EvidenceValueModel::Enumerator {
                                            name: name.value,
                                            score: Some(here(tokens, number).text),
                                        },
                                        range: SourceRange::made_or(
                                            name.range.from(),
                                            close.range.to(),
                                            name.range,
                                        ),
                                    },
                                    last,
                                ),
                            ),
                        }
                    } else {
                        wrong_here(tokens, number, "expected a score, written as a number"@)
                    }
                } else {
                    Ok(
                        (
                            Spanned {
                                value: EvidenceValueModel::Enumerator {
                                    name: name.value,
                                    score: None,
                                },
                                range: name.range,
                            },
                            next,
                        ),
                    )
                }
            },
        }
    }
}

/// One evidence field, and whether a comma follows it.
pub open spec fn evidence_field(tokens: Seq<TokenModel>, cursor: Cursor) -> Parsed<
    (EvidenceFieldModel, bool),
> {
    match identifier(tokens, taken(cursor), "an evidence key"@) {
        Err(wrong) => Err(wrong),
        Ok((key, second)) => match expected(
            tokens,
            second,
            TokenKind::Colon,
            "`:` after an evidence key"@,
        ) {
            Err(wrong) => Err(wrong),
            Ok((_, third)) => match evidence_value(tokens, third) {
                Err(wrong) => Err(wrong),
                Ok((found, fourth)) => {
                    let (separated, comments, last) = entry_end(tokens, fourth, cursor.pending);
                    Ok(
                        (
                            (
                                EvidenceFieldModel {
                                    key,
                                    value: found,
                                    comments,
                                },
                                separated,
                            ),
                            last,
                        ),
                    )
                },
            },
        },
    }
}

/// The fields of an evidence block from a cursor on, behind those already read.
pub open spec fn evidence_fields(
    tokens: Seq<TokenModel>,
    cursor: Cursor,
    before: Seq<EvidenceFieldModel>,
) -> Parsed<Seq<EvidenceFieldModel>>
    decreases tokens.len() - cursor.index,
{
    let at = skip(tokens, cursor);
    if !names(kind(tokens, at)) {
        Ok((before, at))
    } else {
        proof {
            skip_moves(tokens, cursor);
            evidence_field_moves(tokens, at);
        }
        match evidence_field(tokens, at) {
            Err(wrong) => Err(wrong),
            Ok(((found, separated), next)) => if separated {
                evidence_fields(tokens, next, before.push(found))
            } else {
                Ok((before.push(found), next))
            },
        }
    }
}

/// An evidence block, led by the pending comments.
pub open spec fn evidence(tokens: Seq<TokenModel>, cursor: Cursor) -> Parsed<EvidenceBlockModel> {
    match expected(tokens, taken(cursor), TokenKind::EvidenceDirective, "`@evidence`"@) {
        Err(wrong) => Err(wrong),
        Ok((open, second)) => match expected(
            tokens,
            second,
            TokenKind::LeftBrace,
            "`{` to open an evidence block"@,
        ) {
            Err(wrong) => Err(wrong),
            Ok((_, third)) => {
                let (comments, fourth) = remarked(tokens, third, cursor.pending);
                match evidence_fields(tokens, fourth, Seq::empty()) {
                    Err(wrong) => Err(wrong),
                    Ok((fields, fifth)) => match expected(
                        tokens,
                        taken(fifth),
                        TokenKind::RightBrace,
                        "`}` to close an evidence block"@,
                    ) {
                        Err(wrong) => Err(wrong),
                        Ok((_, behind)) => {
                            let (comments, block_comments, last) = closed(
                                tokens,
                                behind,
                                comments,
                                fields.len() == 0,
                                fifth.pending,
                            );
                            Ok((EvidenceBlockModel {
                                    fields,
                                    range: open.range,
                                    comments,
                                    block_comments,
                                }, last))
                        },
                    },
                }
            },
        },
    }
}

/// The evidence blocks of a contribution from a cursor on, behind those already read.
pub open spec fn evidence_blocks(
    tokens: Seq<TokenModel>,
    cursor: Cursor,
    before: Seq<EvidenceBlockModel>,
) -> Parsed<Seq<EvidenceBlockModel>>
    decreases tokens.len() - cursor.index,
{
    let at = skip(tokens, cursor);
    if kind(tokens, at) != TokenKind::EvidenceDirective {
        Ok((before, at))
    } else {
        proof {
            skip_moves(tokens, cursor);
            evidence_moves(tokens, at);
        }
        match evidence(tokens, at) {
            Err(wrong) => Err(wrong),
            Ok((block, next)) => evidence_blocks(tokens, next, before.push(block)),
        }
    }
}

/// What is said where an owner was wanted.
pub open spec fn owner_message() -> Seq<char> {
    "expected `analyzer`, `ai`, or `user` after `@by`"@
}

/// The owner of a contribution.
pub open spec fn owner(tokens: Seq<TokenModel>, cursor: Cursor) -> Parsed<OwnerDeclarationModel> {
    let at = skip(tokens, cursor);
    let token = here(tokens, at);
    if token.kind == TokenKind::StringLiteral {
        Ok((OwnerDeclarationModel::Named { name: spanned(token) }, step(at)))
    } else if !names(token.kind) {
        wrong_here(tokens, at, owner_message())
    } else if token.text == "analyzer"@ {
        match quoted(tokens, step(at), "a quoted analyzer name"@) {
            Err(wrong) => Err(wrong),
            Ok((name, next)) => match quoted(tokens, next, "a quoted analyzer version"@) {
                Err(wrong) => Err(wrong),
                Ok((version, last)) => Ok((OwnerDeclarationModel::Analyzer { name, version }, last)),
            },
        }
    } else if token.text == "ai"@ {
        match quoted(tokens, step(at), "a quoted analysis contract digest"@) {
            Err(wrong) => Err(wrong),
            Ok((contract_digest, last)) => Ok((OwnerDeclarationModel::Ai { contract_digest }, last)),
        }
    } else if token.text == "user"@ {
        Ok((OwnerDeclarationModel::User { range: token.range }, step(at)))
    } else {
        wrong_here(tokens, at, owner_message() + ", found `"@ + token.text + "`"@)
    }
}

/// The source unit that may stand behind an owner.
pub open spec fn unit(tokens: Seq<TokenModel>, cursor: Cursor) -> Parsed<
    Option<Spanned<Seq<char>>>,
> {
    let at = skip(tokens, cursor);
    if kind(tokens, at) == TokenKind::Identifier && here(tokens, at).text == "unit"@ {
        match quoted(tokens, step(at), "a quoted source unit identifier"@) {
            Err(wrong) => Err(wrong),
            Ok((text, next)) => Ok((Some(text), next)),
        }
    } else {
        Ok((None, at))
    }
}

/// A contribution block, led by the pending comments.
pub open spec fn contribution(tokens: Seq<TokenModel>, cursor: Cursor) -> Parsed<
    ContributionBlockModel,
> {
    match expected(tokens, taken(cursor), TokenKind::ByDirective, "`@by`"@) {
        Err(wrong) => Err(wrong),
        Ok((_, second)) => match owner(tokens, second) {
            Err(wrong) => Err(wrong),
            Ok((who, third)) => match unit(tokens, third) {
                Err(wrong) => Err(wrong),
                Ok((place, fourth)) => match expected(
                    tokens,
                    fourth,
                    TokenKind::LeftBrace,
                    "`{` to open a contribution block"@,
                ) {
                    Err(wrong) => Err(wrong),
                    Ok((_, fifth)) => {
                        let (comments, sixth) = remarked(tokens, fifth, cursor.pending);
                        match evidence_blocks(tokens, sixth, Seq::empty()) {
                            Err(wrong) => Err(wrong),
                            Ok((blocks, seventh)) => match expected(
                                tokens,
                                taken(seventh),
                                TokenKind::RightBrace,
                                "`}` to close a contribution block"@,
                            ) {
                                Err(wrong) => Err(wrong),
                                Ok((_, behind)) => {
                                    let (comments, block_comments, last) = closed(
                                        tokens,
                                        behind,
                                        comments,
                                        blocks.len() == 0,
                                        seventh.pending,
                                    );
                                    Ok((ContributionBlockModel {
                                            owner: who,
                                            unit: place,
                                            evidence: blocks,
                                            comments,
                                            block_comments,
                                        }, last))
                                },
                            },
                        }
                    },
                },
            },
        },
    }
}

/// The contributions of a record from a cursor on, behind those already read.
pub open spec fn contributions(
    tokens: Seq<TokenModel>,
    cursor: Cursor,
    before: Seq<ContributionBlockModel>,
) -> Parsed<Seq<ContributionBlockModel>>
    decreases tokens.len() - cursor.index,
{
    let at = skip(tokens, cursor);
    if kind(tokens, at) != TokenKind::ByDirective {
        Ok((before, at))
    } else {
        proof {
            skip_moves(tokens, cursor);
            contribution_moves(tokens, at);
        }
        match contribution(tokens, at) {
            Err(wrong) => Err(wrong),
            Ok((block, next)) => contributions(tokens, next, before.push(block)),
        }
    }
}

/// A record block: properties, then contributions. The two are told apart by shape: a
/// property starts with a name and a contribution with `@by`.
pub open spec fn record_body(
    tokens: Seq<TokenModel>,
    cursor: Cursor,
    leading: Seq<CommentModel>,
) -> Parsed<RecordBodyModel> {
    match expected(tokens, cursor, TokenKind::LeftBrace, "`{` to open a record block"@) {
        Err(wrong) => Err(wrong),
        Ok((_, second)) => {
            let (comments, third) = remarked(tokens, second, leading);
            match properties(tokens, third, Seq::empty()) {
                Err(wrong) => Err(wrong),
                Ok((found, fourth)) => match contributions(tokens, fourth, Seq::empty()) {
                    Err(wrong) => Err(wrong),
                    Ok((blocks, fifth)) => match expected(
                        tokens,
                        taken(fifth),
                        TokenKind::RightBrace,
                        "`}` to close a record block"@,
                    ) {
                        Err(wrong) => Err(wrong),
                        Ok((_, behind)) => {
                            let (comments, block_comments, last) = closed(
                                tokens,
                                behind,
                                comments,
                                found.len() == 0 && blocks.len() == 0,
                                fifth.pending,
                            );
                            Ok((RecordBodyModel {
                                    properties: found,
                                    contributions: blocks,
                                    comments,
                                    block_comments,
                                }, last))
                        },
                    },
                },
            }
        },
    }
}

// -- Declarations ------------------------------------------------------------------

/// The name of the type a token stands for.
pub open spec fn type_word(token: TokenModel) -> Option<Seq<char>> {
    if token.kind == TokenKind::Identifier {
        Some(token.text)
    } else if token.kind == TokenKind::Keyword(Keyword::Bytes) {
        Some("bytes"@)
    } else if token.kind == TokenKind::Keyword(Keyword::Datetime) {
        Some("datetime"@)
    } else {
        None
    }
}

/// A field type.
pub open spec fn field_type(tokens: Seq<TokenModel>, cursor: Cursor) -> Parsed<Spanned<FieldType>> {
    let at = skip(tokens, cursor);
    let token = here(tokens, at);
    match type_word(token) {
        None => wrong_here(tokens, at, "expected a field type"@),
        Some(text) => match ScalarType::named(text) {
            None => wrong_here(
                tokens,
                at,
                "`"@ + text
                    + "` is not a field type; expected boolean, integer, double, string, bytes, or datetime, optionally followed by `[]`"@,
            ),
            Some(found) => {
                let second = step(at);
                if kind(tokens, second) == TokenKind::LeftBracket {
                    match expected(
                        tokens,
                        step(second),
                        TokenKind::RightBracket,
                        "`]` to close an array type"@,
                    ) {
                        Err(wrong) => Err(wrong),
                        Ok((close, next)) => {
                            let last = skip(tokens, next);
                            if kind(tokens, last) == TokenKind::LeftBracket {
                                wrong_here(
                                    tokens,
                                    last,
                                    "an array does not nest, so `[][]` is not a field type"@,
                                )
                            } else {
                                Ok(
                                    (
                                        Spanned {
                                            value: FieldType { scalar: found, array: true },
                                            range: SourceRange::made_or(
                                                token.range.from(),
                                                close.range.to(),
                                                token.range,
                                            ),
                                        },
                                        next,
                                    ),
                                )
                            }
                        },
                    }
                } else {
                    Ok(
                        (
                            Spanned {
                                value: FieldType { scalar: found, array: false },
                                range: token.range,
                            },
                            second,
                        ),
                    )
                }
            },
        },
    }
}

/// One field of a schema, and whether a comma follows it.
pub open spec fn schema_field(tokens: Seq<TokenModel>, cursor: Cursor) -> Parsed<
    (SchemaFieldModel, bool),
> {
    match identifier(tokens, taken(cursor), "a field key"@) {
        Err(wrong) => Err(wrong),
        Ok((key, second)) => {
            let (optional, third) = eaten(tokens, second, TokenKind::Question);
            match expected(tokens, third, TokenKind::Colon, "`:` after a field key"@) {
                Err(wrong) => Err(wrong),
                Ok((_, fourth)) => match field_type(tokens, fourth) {
                    Err(wrong) => Err(wrong),
                    Ok((found, fifth)) => {
                        let (separated, comments, last) = entry_end(tokens, fifth, cursor.pending);
                        Ok(
                            (
                                (
                                    SchemaFieldModel {
                                        key,
                                        optional,
                                        field_type: found,
                                        comments,
                                    },
                                    separated,
                                ),
                                last,
                            ),
                        )
                    },
                },
            }
        },
    }
}

/// The fields of a schema from a cursor on, behind those already read.
pub open spec fn schema_fields(
    tokens: Seq<TokenModel>,
    cursor: Cursor,
    before: Seq<SchemaFieldModel>,
) -> Parsed<Seq<SchemaFieldModel>>
    decreases tokens.len() - cursor.index,
{
    let at = skip(tokens, cursor);
    if !names(kind(tokens, at)) {
        Ok((before, at))
    } else {
        proof {
            skip_moves(tokens, cursor);
            schema_field_moves(tokens, at);
        }
        match schema_field(tokens, at) {
            Err(wrong) => Err(wrong),
            Ok(((found, separated), next)) => if separated {
                schema_fields(tokens, next, before.push(found))
            } else {
                Ok((before.push(found), next))
            },
        }
    }
}

/// The endpoint constraint that may stand behind a schema name.
pub open spec fn constraint(tokens: Seq<TokenModel>, cursor: Cursor) -> Parsed<
    Option<EndpointConstraintModel>,
> {
    let at = skip(tokens, cursor);
    if kind(tokens, at) != TokenKind::LeftParen {
        Ok((None, at))
    } else {
        match identifier(tokens, step(at), "the source schema name"@) {
            Err(wrong) => Err(wrong),
            Ok((source, second)) => match expected(
                tokens,
                second,
                TokenKind::Arrow,
                "`->` between the endpoint schemas"@,
            ) {
                Err(wrong) => Err(wrong),
                Ok((_, third)) => match identifier(tokens, third, "the target schema name"@) {
                    Err(wrong) => Err(wrong),
                    Ok((target, fourth)) => match expected(
                        tokens,
                        fourth,
                        TokenKind::RightParen,
                        "`)` after the endpoint schemas"@,
                    ) {
                        Err(wrong) => Err(wrong),
                        Ok((_, last)) => Ok(
                            (Some(EndpointConstraintModel { source, target }), last),
                        ),
                    },
                },
            },
        }
    }
}

/// A schema declaration, led by the pending comments.
pub open spec fn schema(tokens: Seq<TokenModel>, cursor: Cursor) -> Parsed<SchemaDeclarationModel> {
    match expected(tokens, taken(cursor), TokenKind::Keyword(Keyword::Schema), "`schema`"@) {
        Err(wrong) => Err(wrong),
        Ok((_, second)) => match identifier(tokens, second, "a schema name"@) {
            Err(wrong) => Err(wrong),
            Ok((name, third)) => match constraint(tokens, third) {
                Err(wrong) => Err(wrong),
                Ok((endpoints, fourth)) => match expected(
                    tokens,
                    fourth,
                    TokenKind::LeftBrace,
                    "`{` to open a field block"@,
                ) {
                    Err(wrong) => Err(wrong),
                    Ok((_, fifth)) => {
                        let (comments, sixth) = remarked(tokens, fifth, cursor.pending);
                        match schema_fields(tokens, sixth, Seq::empty()) {
                            Err(wrong) => Err(wrong),
                            Ok((fields, seventh)) => match expected(
                                tokens,
                                taken(seventh),
                                TokenKind::RightBrace,
                                "`}` to close a field block"@,
                            ) {
                                Err(wrong) => Err(wrong),
                                Ok((_, behind)) => {
                                    let (comments, block_comments, last) = closed(
                                        tokens,
                                        behind,
                                        comments,
                                        fields.len() == 0,
                                        seventh.pending,
                                    );
                                    Ok((SchemaDeclarationModel {
                                            name,
                                            endpoints,
                                            fields,
                                            comments,
                                            block_comments,
                                        }, last))
                                },
                            },
                        }
                    },
                },
            },
        },
    }
}

/// More schema names, as long as commas follow.
pub open spec fn more_schemas(
    tokens: Seq<TokenModel>,
    cursor: Cursor,
    before: Seq<Spanned<Seq<char>>>,
) -> Parsed<Seq<Spanned<Seq<char>>>>
    decreases tokens.len() - cursor.index,
{
    let (separated, next) = eaten(tokens, cursor, TokenKind::Comma);
    if !separated {
        Ok((before, next))
    } else {
        proof {
            skip_moves(tokens, cursor);
            identifier_moves(tokens, next, "a schema name"@);
        }
        match identifier(tokens, next, "a schema name"@) {
            Err(wrong) => Err(wrong),
            Ok((name, last)) => more_schemas(tokens, last, before.push(name)),
        }
    }
}

/// A node declaration, led by the pending comments.
pub open spec fn node(tokens: Seq<TokenModel>, cursor: Cursor) -> Parsed<NodeDeclarationModel> {
    match expected(tokens, taken(cursor), TokenKind::Keyword(Keyword::Node), "`node`"@) {
        Err(wrong) => Err(wrong),
        Ok((_, second)) => match identifier(tokens, second, "a node name"@) {
            Err(wrong) => Err(wrong),
            Ok((name, third)) => match expected(
                tokens,
                third,
                TokenKind::Colon,
                "`:` before the schema names"@,
            ) {
                Err(wrong) => Err(wrong),
                Ok((_, fourth)) => match identifier(tokens, fourth, "a schema name"@) {
                    Err(wrong) => Err(wrong),
                    Ok((first, fifth)) => match more_schemas(tokens, fifth, seq![first]) {
                        Err(wrong) => Err(wrong),
                        Ok((schemas, sixth)) => match record_body(tokens, sixth, cursor.pending) {
                            Err(wrong) => Err(wrong),
                            Ok((record, last)) => Ok(
                                (NodeDeclarationModel { name, schemas, record }, last),
                            ),
                        },
                    },
                },
            },
        },
    }
}

/// An edge declaration, led by the pending comments.
pub open spec fn edge(tokens: Seq<TokenModel>, cursor: Cursor) -> Parsed<EdgeDeclarationModel> {
    match expected(tokens, taken(cursor), TokenKind::Keyword(Keyword::Edge), "`edge`"@) {
        Err(wrong) => Err(wrong),
        Ok((_, second)) => match endpoint(tokens, second) {
            Err(wrong) => Err(wrong),
            Ok((source, third)) => match expected(
                tokens,
                third,
                TokenKind::Arrow,
                "`->` between the endpoints"@,
            ) {
                Err(wrong) => Err(wrong),
                Ok((_, fourth)) => match endpoint(tokens, fourth) {
                    Err(wrong) => Err(wrong),
                    Ok((target, fifth)) => match expected(
                        tokens,
                        fifth,
                        TokenKind::Colon,
                        "`:` before a relation name"@,
                    ) {
                        Err(wrong) => Err(wrong),
                        Ok((_, sixth)) => match identifier(tokens, sixth, "a relation name"@) {
                            Err(wrong) => Err(wrong),
                            Ok((relation, seventh)) => match record_body(
                                tokens,
                                seventh,
                                cursor.pending,
                            ) {
                                Err(wrong) => Err(wrong),
                                Ok((record, last)) => Ok(
                                    (
                                        EdgeDeclarationModel { source, target, relation, record },
                                        last,
                                    ),
                                ),
                            },
                        },
                    },
                },
            },
        },
    }
}

/// One link declaration, from the directive on, led by the pending comments.
pub open spec fn link(tokens: Seq<TokenModel>, cursor: Cursor) -> Parsed<LinkDeclarationModel> {
    match quoted(tokens, step(taken(cursor)), "a quoted link locator"@) {
        Err(wrong) => Err(wrong),
        Ok((source, second)) => {
            let third = skip(tokens, second);
            let named = if kind(tokens, third) == TokenKind::Keyword(Keyword::As) {
                match identifier(tokens, step(third), "a link alias"@) {
                    Err(wrong) => Err(wrong),
                    Ok((name, next)) => Ok((Some(name), next)),
                }
            } else {
                Ok((None, second))
            };
            match named {
                Err(wrong) => Err(wrong),
                Ok((alias, fourth)) => {
                    let (comments, last) = remarked(tokens, fourth, cursor.pending);
                    Ok(
                        (
                            LinkDeclarationModel {
                                source,
                                alias,
                                comments,
                            },
                            last,
                        ),
                    )
                },
            }
        },
    }
}

/// The links of a file from a cursor on, behind those already read.
pub open spec fn links(
    tokens: Seq<TokenModel>,
    cursor: Cursor,
    before: Seq<LinkDeclarationModel>,
) -> Parsed<Seq<LinkDeclarationModel>>
    decreases tokens.len() - cursor.index,
{
    let at = skip(tokens, cursor);
    if kind(tokens, at) != TokenKind::LinkDirective {
        Ok((before, at))
    } else {
        proof {
            skip_moves(tokens, cursor);
            link_moves(tokens, at);
        }
        match link(tokens, at) {
            Err(wrong) => Err(wrong),
            Ok((found, next)) => links(tokens, next, before.push(found)),
        }
    }
}

/// The declarations of a file.
pub struct Declarations {
    /// The schemas.
    pub schemas: Seq<SchemaDeclarationModel>,
    /// The nodes.
    pub nodes: Seq<NodeDeclarationModel>,
    /// The edges.
    pub edges: Seq<EdgeDeclarationModel>,
    /// The order they came in.
    pub order: Seq<DeclarationRef>,
}

/// The declarations of a file from a cursor on, behind those already read.
pub open spec fn declarations(
    tokens: Seq<TokenModel>,
    cursor: Cursor,
    before: Declarations,
) -> Parsed<Declarations>
    decreases tokens.len() - cursor.index,
{
    let at = skip(tokens, cursor);
    proof {
        skip_moves(tokens, cursor);
        schema_moves(tokens, at);
        node_moves(tokens, at);
        edge_moves(tokens, at);
    }
    if kind(tokens, at) == TokenKind::Keyword(Keyword::Schema) {
        match schema(tokens, at) {
            Err(wrong) => Err(wrong),
            Ok((found, next)) => declarations(
                tokens,
                next,
                Declarations {
                    schemas: before.schemas.push(found),
                    order: before.order.push(DeclarationRef::Schema(before.schemas.len() as usize)),
                    ..before
                },
            ),
        }
    } else if kind(tokens, at) == TokenKind::Keyword(Keyword::Node) {
        match node(tokens, at) {
            Err(wrong) => Err(wrong),
            Ok((found, next)) => declarations(
                tokens,
                next,
                Declarations {
                    nodes: before.nodes.push(found),
                    order: before.order.push(DeclarationRef::Node(before.nodes.len() as usize)),
                    ..before
                },
            ),
        }
    } else if kind(tokens, at) == TokenKind::Keyword(Keyword::Edge) {
        match edge(tokens, at) {
            Err(wrong) => Err(wrong),
            Ok((found, next)) => declarations(
                tokens,
                next,
                Declarations {
                    edges: before.edges.push(found),
                    order: before.order.push(DeclarationRef::Edge(before.edges.len() as usize)),
                    ..before
                },
            ),
        }
    } else {
        Ok((before, at))
    }
}

/// The version header, and the language version it states.
pub open spec fn header(tokens: Seq<TokenModel>) -> Parsed<(Spanned<u32>, CommentsModel)> {
    let first = skip(tokens, Cursor { index: 0, pending: Seq::empty() });
    match expected(
        tokens,
        taken(first),
        TokenKind::NostDirective,
        "`@nost` as the first declaration"@,
    ) {
        Err(wrong) => Err(wrong),
        Ok((_, second)) => match expected(
            tokens,
            second,
            TokenKind::IntegerLiteral,
            "a language version number"@,
        ) {
            Err(wrong) => Err(wrong),
            Ok((number, third)) => match read_unsigned(number.text, u32::MAX as int) {
                None => Err(
                    ParseErrorModel {
                        message: "the language version must be a non-negative whole number"@,
                        range: number.range,
                    },
                ),
                Some(version) => {
                    let (comments, last) = remarked(tokens, third, first.pending);
                    Ok(
                        (
                            (
                                Spanned { value: version as u32, range: number.range },
                                comments,
                            ),
                            last,
                        ),
                    )
                },
            },
        },
    }
}

/// What a whole file says, or what is wrong with it.
pub open spec fn file_of(tokens: Seq<TokenModel>) -> Result<SourceFileModel, ParseErrorModel> {
    match header(tokens) {
        Err(wrong) => Err(wrong),
        Ok(((version, version_comments), second)) => match links(tokens, second, Seq::empty()) {
            Err(wrong) => Err(wrong),
            Ok((found, third)) => match declarations(
                tokens,
                third,
                Declarations {
                    schemas: Seq::empty(),
                    nodes: Seq::empty(),
                    edges: Seq::empty(),
                    order: Seq::empty(),
                },
            ) {
                Err(wrong) => Err(wrong),
                Ok((all, fourth)) => {
                    let last = skip(tokens, fourth);
                    if kind(tokens, last) == TokenKind::Eof {
                        Ok(
                            SourceFileModel {
                                version,
                                version_comments,
                                links: found,
                                schemas: all.schemas,
                                nodes: all.nodes,
                                edges: all.edges,
                                order: all.order,
                                trailing_comments: last.pending,
                            },
                        )
                    } else if kind(tokens, last) == TokenKind::LinkDirective {
                        Err(
                            ParseErrorModel {
                                message: "a link declaration must come before every schema, node, and edge declaration"@,
                                range: here(tokens, last).range,
                            },
                        )
                    } else {
                        Err(
                            ParseErrorModel {
                                message: "expected `schema`, `node`, `edge`, or the end of the file"@,
                                range: here(tokens, last).range,
                            },
                        )
                    }
                },
            },
        },
    }
}

/// What a source says, or what is wrong with it.
pub open spec fn parsed(source: Seq<char>) -> Result<SourceFileModel, ParseErrorModel> {
    match tokens_of(source) {
        Err(wrong) => Err(wrong),
        Ok(tokens) => file_of(tokens),
    }
}

// -- Parsers move forward ----------------------------------------------------------

/// Whether a cursor lies within the tokens.
pub open spec fn within(tokens: Seq<TokenModel>, cursor: Cursor) -> bool {
    0 <= cursor.index <= tokens.len()
}

/// Skipping trivia never moves back.
pub proof fn skip_moves(tokens: Seq<TokenModel>, cursor: Cursor)
    ensures
        cursor.index <= skip(tokens, cursor).index,
        within(tokens, cursor) ==> within(tokens, skip(tokens, cursor)),
        !within(tokens, cursor) ==> skip(tokens, cursor) == cursor,
        skip(tokens, skip(tokens, cursor)) == skip(tokens, cursor),
    decreases tokens.len() - cursor.index,
{
    if 0 <= cursor.index < tokens.len() {
        if kind(tokens, cursor) == TokenKind::Trivia(TriviaKind::Whitespace) {
            skip_moves(tokens, step(cursor));
        } else if is_comment(here(tokens, cursor)) {
            skip_moves(
                tokens,
                Cursor {
                    index: cursor.index + 1,
                    pending: cursor.pending.push(comment_of(here(tokens, cursor))),
                },
            );
        }
    }
}

/// Where trivia ends does not depend on the comments that are pending.
pub proof fn skip_by_index(tokens: Seq<TokenModel>, left: Cursor, right: Cursor)
    requires
        left.index == right.index,
    ensures
        skip(tokens, left).index == skip(tokens, right).index,
    decreases tokens.len() - left.index,
{
    if 0 <= left.index < tokens.len() {
        if kind(tokens, left) == TokenKind::Trivia(TriviaKind::Whitespace) {
            skip_by_index(tokens, step(left), step(right));
        } else if is_comment(here(tokens, left)) {
            let comment = comment_of(here(tokens, left));
            skip_by_index(
                tokens,
                Cursor { index: left.index + 1, pending: left.pending.push(comment) },
                Cursor { index: right.index + 1, pending: right.pending.push(comment) },
            );
        }
    }
}

/// A trailing comment lies ahead.
pub proof fn trailing_moves(tokens: Seq<TokenModel>, index: int)
    ensures
        trailing_at(tokens, index) matches Some((_, next)) ==> index < next <= tokens.len(),
    decreases tokens.len() - index,
{
    if 0 <= index < tokens.len() && tokens[index].kind == TokenKind::Trivia(
        TriviaKind::Whitespace,
    ) {
        trailing_moves(tokens, index + 1);
    }
}

/// What `expected` reads moves the cursor forward.
pub proof fn expected_moves(
    tokens: Seq<TokenModel>,
    cursor: Cursor,
    wanted: TokenKind,
    what: Seq<char>,
)
    requires
        wanted != TokenKind::Eof,
    ensures
        expected(tokens, cursor, wanted, what) matches Ok((_, next)) ==> cursor.index < next.index && within(
            tokens,
            next,
        ),
{
    skip_moves(tokens, cursor);
}

/// What `identifier` reads moves the cursor forward.
pub proof fn identifier_moves(tokens: Seq<TokenModel>, cursor: Cursor, what: Seq<char>)
    ensures
        identifier(tokens, cursor, what) matches Ok((_, next)) ==> cursor.index < next.index && within(
            tokens,
            next,
        ),
{
    skip_moves(tokens, cursor);
}

/// What `quoted` reads moves the cursor forward.
pub proof fn quoted_moves(tokens: Seq<TokenModel>, cursor: Cursor, what: Seq<char>)
    ensures
        quoted(tokens, cursor, what) matches Ok((_, next)) ==> cursor.index < next.index && within(
            tokens,
            next,
        ),
{
    expected_moves(tokens, cursor, TokenKind::StringLiteral, what);
}

/// The brace that closes a block, and what follows it on its line, lie ahead.
pub proof fn closing_moves(tokens: Seq<TokenModel>, cursor: Cursor, what: Seq<char>)
    ensures
        expected(tokens, cursor, TokenKind::RightBrace, what) matches Ok((_, next)) ==> cursor.index
            < next.index && within(tokens, next) && forall|
            comments: CommentsModel,
            hollow: bool,
            left: Seq<CommentModel>,
        |
            next.index <= (#[trigger] closed(tokens, next, comments, hollow, left)).2.index
                && within(tokens, closed(tokens, next, comments, hollow, left).2),
{
    expected_moves(tokens, cursor, TokenKind::RightBrace, what);
    if let Ok((_, next)) = expected(tokens, cursor, TokenKind::RightBrace, what) {
        trailing_moves(tokens, next.index);
    }
}

/// The end of an entry lies ahead.
pub proof fn entry_end_moves(tokens: Seq<TokenModel>, cursor: Cursor, leading: Seq<CommentModel>)
    ensures
        cursor.index <= entry_end(tokens, cursor, leading).2.index,
        within(tokens, cursor) ==> within(tokens, entry_end(tokens, cursor, leading).2),
{
    trailing_moves(tokens, cursor.index);
    let (_, behind) = remarked(tokens, cursor, leading);
    skip_moves(tokens, behind);
    let (_, next) = eaten(tokens, behind, TokenKind::Comma);
    trailing_moves(tokens, next.index);
}

/// What `endpoint` reads moves the cursor forward.
pub proof fn endpoint_moves(tokens: Seq<TokenModel>, cursor: Cursor)
    ensures
        endpoint(tokens, cursor) matches Ok((_, next)) ==> cursor.index < next.index && within(
            tokens,
            next,
        ),
{
    let at = skip(tokens, cursor);
    skip_moves(tokens, cursor);
    quoted_moves(tokens, at, "a locator"@);
    identifier_moves(tokens, at, "an endpoint"@);
    match quoted(tokens, at, "a locator"@) {
        Ok((_, second)) => {
            expected_moves(tokens, second, TokenKind::ColonColon, "`::` after a locator"@);
            match expected(tokens, second, TokenKind::ColonColon, "`::` after a locator"@) {
                Ok((_, third)) => identifier_moves(tokens, third, "a declaration name"@),
                Err(_) => {}
            }
        }
        Err(_) => {}
    }
    match identifier(tokens, at, "an endpoint"@) {
        Ok((_, next)) => {
            skip_moves(tokens, next);
            identifier_moves(tokens, step(skip(tokens, next)), "a declaration name"@);
        }
        Err(_) => {}
    }
}

/// What `scalar` reads moves the cursor forward.
pub proof fn scalar_moves(tokens: Seq<TokenModel>, cursor: Cursor)
    ensures
        scalar(tokens, cursor) matches Ok((_, next)) ==> cursor.index < next.index && within(
            tokens,
            next,
        ),
{
    skip_moves(tokens, cursor);
}

/// The scalars of a list move the cursor forward.
pub proof fn scalars_move(
    tokens: Seq<TokenModel>,
    cursor: Cursor,
    before: Seq<Spanned<ValueModel>>,
)
    ensures
        scalars(tokens, cursor, before) matches Ok((_, next)) ==> cursor.index < next.index
            && within(tokens, next),
    decreases tokens.len() - cursor.index,
{
    scalar_moves(tokens, cursor);
    match scalar(tokens, cursor) {
        Ok((item, next)) => {
            let comma = skip(tokens, next);
            skip_moves(tokens, next);
            if kind(tokens, comma) == TokenKind::Comma {
                let behind = skip(tokens, step(comma));
                skip_moves(tokens, step(comma));
                if kind(tokens, behind) != TokenKind::RightBracket {
                    scalars_move(tokens, behind, before.push(item));
                }
            }
        }
        Err(_) => {}
    }
}

/// What `value` reads moves the cursor forward.
pub proof fn value_moves(tokens: Seq<TokenModel>, cursor: Cursor)
    ensures
        value(tokens, cursor) matches Ok((_, next)) ==> cursor.index < next.index && within(
            tokens,
            next,
        ),
{
    let at = skip(tokens, cursor);
    skip_moves(tokens, cursor);
    scalar_moves(tokens, at);
    let first = skip(tokens, step(at));
    skip_moves(tokens, step(at));
    scalars_move(tokens, first, Seq::empty());
    expected_moves(tokens, first, TokenKind::RightBracket, "`]`"@);
    match scalars(tokens, first, Seq::empty()) {
        Ok((_, next)) => expected_moves(tokens, next, TokenKind::RightBracket, "`]`"@),
        Err(_) => {}
    }
}

/// What `property` reads moves the cursor forward.
pub proof fn property_moves(tokens: Seq<TokenModel>, cursor: Cursor)
    ensures
        property(tokens, cursor) matches Ok((_, next)) ==> cursor.index < next.index && within(
            tokens,
            next,
        ),
{
    identifier_moves(tokens, taken(cursor), "a property key"@);
    match identifier(tokens, taken(cursor), "a property key"@) {
        Ok((_, second)) => {
            expected_moves(tokens, second, TokenKind::Colon, "`:` after a property key"@);
            match expected(tokens, second, TokenKind::Colon, "`:` after a property key"@) {
                Ok((_, third)) => {
                    value_moves(tokens, third);
                    match value(tokens, third) {
                        Ok((_, fourth)) => entry_end_moves(tokens, fourth, cursor.pending),
                        Err(_) => {}
                    }
                }
                Err(_) => {}
            }
        }
        Err(_) => {}
    }
}

/// What `properties` reads moves the cursor forward.
pub proof fn properties_move(tokens: Seq<TokenModel>, cursor: Cursor, before: Seq<PropertyModel>)
    ensures
        properties(tokens, cursor, before) matches Ok((_, next)) ==> cursor.index <= next.index
            && (within(tokens, cursor) ==> within(tokens, next)),
    decreases tokens.len() - cursor.index,
{
    let at = skip(tokens, cursor);
    skip_moves(tokens, cursor);
    if names(kind(tokens, at)) {
        property_moves(tokens, at);
        match property(tokens, at) {
            Ok(((found, separated), next)) => {
                if separated {
                    properties_move(tokens, next, before.push(found));
                }
            }
            Err(_) => {}
        }
    }
}

/// What `evidence_value` reads moves the cursor forward.
pub proof fn evidence_value_moves(tokens: Seq<TokenModel>, cursor: Cursor)
    ensures
        evidence_value(tokens, cursor) matches Ok((_, next)) ==> cursor.index < next.index && within(
            tokens,
            next,
        ),
{
    let at = skip(tokens, cursor);
    skip_moves(tokens, cursor);
    quoted_moves(tokens, at, "a quoted value"@);
    identifier_moves(tokens, at, "a quoted value or a bare word"@);
    match identifier(tokens, at, "a quoted value or a bare word"@) {
        Ok((_, next)) => {
            let open = skip(tokens, next);
            skip_moves(tokens, next);
            let number = skip(tokens, step(open));
            skip_moves(tokens, step(open));
            expected_moves(tokens, step(number), TokenKind::RightParen, "`)` after a score"@);
        }
        Err(_) => {}
    }
}

/// What `evidence_field` reads moves the cursor forward.
pub proof fn evidence_field_moves(tokens: Seq<TokenModel>, cursor: Cursor)
    ensures
        evidence_field(tokens, cursor) matches Ok((_, next)) ==> cursor.index < next.index && within(
            tokens,
            next,
        ),
{
    identifier_moves(tokens, taken(cursor), "an evidence key"@);
    match identifier(tokens, taken(cursor), "an evidence key"@) {
        Ok((_, second)) => {
            expected_moves(tokens, second, TokenKind::Colon, "`:` after an evidence key"@);
            match expected(tokens, second, TokenKind::Colon, "`:` after an evidence key"@) {
                Ok((_, third)) => {
                    evidence_value_moves(tokens, third);
                    match evidence_value(tokens, third) {
                        Ok((_, fourth)) => entry_end_moves(tokens, fourth, cursor.pending),
                        Err(_) => {}
                    }
                }
                Err(_) => {}
            }
        }
        Err(_) => {}
    }
}

/// What `evidence_fields` reads moves the cursor forward.
pub proof fn evidence_fields_move(tokens: Seq<TokenModel>, cursor: Cursor, before: Seq<EvidenceFieldModel>)
    ensures
        evidence_fields(tokens, cursor, before) matches Ok((_, next)) ==> cursor.index <= next.index
            && (within(tokens, cursor) ==> within(tokens, next)),
    decreases tokens.len() - cursor.index,
{
    let at = skip(tokens, cursor);
    skip_moves(tokens, cursor);
    if names(kind(tokens, at)) {
        evidence_field_moves(tokens, at);
        match evidence_field(tokens, at) {
            Ok(((found, separated), next)) => {
                if separated {
                    evidence_fields_move(tokens, next, before.push(found));
                }
            }
            Err(_) => {}
        }
    }
}

/// What `evidence` reads moves the cursor forward.
pub proof fn evidence_moves(tokens: Seq<TokenModel>, cursor: Cursor)
    ensures
        evidence(tokens, cursor) matches Ok((_, next)) ==> cursor.index < next.index && within(
            tokens,
            next,
        ),
{
    let what = "`{` to open an evidence block"@;
    let closing = "`}` to close an evidence block"@;
    expected_moves(tokens, taken(cursor), TokenKind::EvidenceDirective, "`@evidence`"@);
    match expected(tokens, taken(cursor), TokenKind::EvidenceDirective, "`@evidence`"@) {
        Ok((_, second)) => {
            expected_moves(tokens, second, TokenKind::LeftBrace, what);
            match expected(tokens, second, TokenKind::LeftBrace, what) {
                Ok((_, third)) => {
                    trailing_moves(tokens, third.index);
                    let (_, fourth) = remarked(tokens, third, cursor.pending);
                    evidence_fields_move(tokens, fourth, Seq::empty());
                    match evidence_fields(tokens, fourth, Seq::empty()) {
                        Ok((_, fifth)) => closing_moves(tokens, taken(fifth), closing),
                        Err(_) => {}
                    }
                }
                Err(_) => {}
            }
        }
        Err(_) => {}
    }
}

/// What `evidence_blocks` reads moves the cursor forward.
pub proof fn evidence_blocks_move(tokens: Seq<TokenModel>, cursor: Cursor, before: Seq<EvidenceBlockModel>)
    ensures
        evidence_blocks(tokens, cursor, before) matches Ok((_, next)) ==> cursor.index <= next.index
            && (within(tokens, cursor) ==> within(tokens, next)),
    decreases tokens.len() - cursor.index,
{
    let at = skip(tokens, cursor);
    skip_moves(tokens, cursor);
    if kind(tokens, at) == TokenKind::EvidenceDirective {
        evidence_moves(tokens, at);
        match evidence(tokens, at) {
            Ok((found, next)) => {
                evidence_blocks_move(tokens, next, before.push(found));
            }
            Err(_) => {}
        }
    }
}

/// What `owner` reads moves the cursor forward.
pub proof fn owner_moves(tokens: Seq<TokenModel>, cursor: Cursor)
    ensures
        owner(tokens, cursor) matches Ok((_, next)) ==> cursor.index < next.index && within(
            tokens,
            next,
        ),
{
    let at = skip(tokens, cursor);
    skip_moves(tokens, cursor);
    quoted_moves(tokens, step(at), "a quoted analyzer name"@);
    quoted_moves(tokens, step(at), "a quoted analysis contract digest"@);
    match quoted(tokens, step(at), "a quoted analyzer name"@) {
        Ok((_, next)) => quoted_moves(tokens, next, "a quoted analyzer version"@),
        Err(_) => {}
    }
}

/// A source unit moves the cursor forward.
pub proof fn unit_moves(tokens: Seq<TokenModel>, cursor: Cursor)
    ensures
        unit(tokens, cursor) matches Ok((_, next)) ==> cursor.index <= next.index && (within(
            tokens,
            cursor,
        ) ==> within(tokens, next)),
{
    skip_moves(tokens, cursor);
    quoted_moves(tokens, step(skip(tokens, cursor)), "a quoted source unit identifier"@);
}

/// What `contribution` reads moves the cursor forward.
pub proof fn contribution_moves(tokens: Seq<TokenModel>, cursor: Cursor)
    ensures
        contribution(tokens, cursor) matches Ok((_, next)) ==> cursor.index < next.index && within(
            tokens,
            next,
        ),
{
    let what = "`{` to open a contribution block"@;
    let closing = "`}` to close a contribution block"@;
    expected_moves(tokens, taken(cursor), TokenKind::ByDirective, "`@by`"@);
    match expected(tokens, taken(cursor), TokenKind::ByDirective, "`@by`"@) {
        Ok((_, second)) => {
            owner_moves(tokens, second);
            match owner(tokens, second) {
                Ok((_, third)) => {
                    unit_moves(tokens, third);
                    match unit(tokens, third) {
                        Ok((_, fourth)) => {
                            expected_moves(tokens, fourth, TokenKind::LeftBrace, what);
                            match expected(tokens, fourth, TokenKind::LeftBrace, what) {
                                Ok((_, fifth)) => {
                                    trailing_moves(tokens, fifth.index);
                                    let (_, sixth) = remarked(tokens, fifth, cursor.pending);
                                    evidence_blocks_move(tokens, sixth, Seq::empty());
                                    match evidence_blocks(tokens, sixth, Seq::empty()) {
                                        Ok((_, seventh)) => closing_moves(tokens, taken(seventh), closing),
                                        Err(_) => {}
                                    }
                                }
                                Err(_) => {}
                            }
                        }
                        Err(_) => {}
                    }
                }
                Err(_) => {}
            }
        }
        Err(_) => {}
    }
}

/// What `contributions` reads moves the cursor forward.
pub proof fn contributions_move(tokens: Seq<TokenModel>, cursor: Cursor, before: Seq<ContributionBlockModel>)
    ensures
        contributions(tokens, cursor, before) matches Ok((_, next)) ==> cursor.index <= next.index
            && (within(tokens, cursor) ==> within(tokens, next)),
    decreases tokens.len() - cursor.index,
{
    let at = skip(tokens, cursor);
    skip_moves(tokens, cursor);
    if kind(tokens, at) == TokenKind::ByDirective {
        contribution_moves(tokens, at);
        match contribution(tokens, at) {
            Ok((found, next)) => {
                contributions_move(tokens, next, before.push(found));
            }
            Err(_) => {}
        }
    }
}

/// What `record_body` reads moves the cursor forward.
pub proof fn record_body_moves(
    tokens: Seq<TokenModel>,
    cursor: Cursor,
    leading: Seq<CommentModel>,
)
    ensures
        record_body(tokens, cursor, leading) matches Ok((_, next)) ==> cursor.index < next.index && within(
            tokens,
            next,
        ),
{
    let what = "`{` to open a record block"@;
    let closing = "`}` to close a record block"@;
    expected_moves(tokens, cursor, TokenKind::LeftBrace, what);
    match expected(tokens, cursor, TokenKind::LeftBrace, what) {
        Ok((_, second)) => {
            trailing_moves(tokens, second.index);
            let (_, third) = remarked(tokens, second, leading);
            properties_move(tokens, third, Seq::empty());
            match properties(tokens, third, Seq::empty()) {
                Ok((_, fourth)) => {
                    contributions_move(tokens, fourth, Seq::empty());
                    match contributions(tokens, fourth, Seq::empty()) {
                        Ok((_, fifth)) => closing_moves(tokens, taken(fifth), closing),
                        Err(_) => {}
                    }
                }
                Err(_) => {}
            }
        }
        Err(_) => {}
    }
}

/// What `field_type` reads moves the cursor forward.
pub proof fn field_type_moves(tokens: Seq<TokenModel>, cursor: Cursor)
    ensures
        field_type(tokens, cursor) matches Ok((_, next)) ==> cursor.index < next.index && within(
            tokens,
            next,
        ),
{
    let at = skip(tokens, cursor);
    let what = "`]` to close an array type"@;
    skip_moves(tokens, cursor);
    expected_moves(tokens, step(step(at)), TokenKind::RightBracket, what);
    match expected(tokens, step(step(at)), TokenKind::RightBracket, what) {
        Ok((_, next)) => skip_moves(tokens, next),
        Err(_) => {}
    }
}

/// What `schema_field` reads moves the cursor forward.
pub proof fn schema_field_moves(tokens: Seq<TokenModel>, cursor: Cursor)
    ensures
        schema_field(tokens, cursor) matches Ok((_, next)) ==> cursor.index < next.index && within(
            tokens,
            next,
        ),
{
    identifier_moves(tokens, taken(cursor), "a field key"@);
    match identifier(tokens, taken(cursor), "a field key"@) {
        Ok((_, second)) => {
            skip_moves(tokens, second);
            let (_, third) = eaten(tokens, second, TokenKind::Question);
            expected_moves(tokens, third, TokenKind::Colon, "`:` after a field key"@);
            match expected(tokens, third, TokenKind::Colon, "`:` after a field key"@) {
                Ok((_, fourth)) => {
                    field_type_moves(tokens, fourth);
                    match field_type(tokens, fourth) {
                        Ok((_, fifth)) => entry_end_moves(tokens, fifth, cursor.pending),
                        Err(_) => {}
                    }
                }
                Err(_) => {}
            }
        }
        Err(_) => {}
    }
}

/// What `schema_fields` reads moves the cursor forward.
pub proof fn schema_fields_move(tokens: Seq<TokenModel>, cursor: Cursor, before: Seq<SchemaFieldModel>)
    ensures
        schema_fields(tokens, cursor, before) matches Ok((_, next)) ==> cursor.index <= next.index
            && (within(tokens, cursor) ==> within(tokens, next)),
    decreases tokens.len() - cursor.index,
{
    let at = skip(tokens, cursor);
    skip_moves(tokens, cursor);
    if names(kind(tokens, at)) {
        schema_field_moves(tokens, at);
        match schema_field(tokens, at) {
            Ok(((found, separated), next)) => {
                if separated {
                    schema_fields_move(tokens, next, before.push(found));
                }
            }
            Err(_) => {}
        }
    }
}

/// An endpoint constraint moves the cursor forward.
pub proof fn constraint_moves(tokens: Seq<TokenModel>, cursor: Cursor)
    ensures
        constraint(tokens, cursor) matches Ok((_, next)) ==> cursor.index <= next.index && (within(
            tokens,
            cursor,
        ) ==> within(tokens, next)),
{
    let at = skip(tokens, cursor);
    let arrow = "`->` between the endpoint schemas"@;
    let close = "`)` after the endpoint schemas"@;
    skip_moves(tokens, cursor);
    identifier_moves(tokens, step(at), "the source schema name"@);
    match identifier(tokens, step(at), "the source schema name"@) {
        Ok((_, second)) => {
            expected_moves(tokens, second, TokenKind::Arrow, arrow);
            match expected(tokens, second, TokenKind::Arrow, arrow) {
                Ok((_, third)) => {
                    identifier_moves(tokens, third, "the target schema name"@);
                    match identifier(tokens, third, "the target schema name"@) {
                        Ok((_, fourth)) => expected_moves(
                            tokens,
                            fourth,
                            TokenKind::RightParen,
                            close,
                        ),
                        Err(_) => {}
                    }
                }
                Err(_) => {}
            }
        }
        Err(_) => {}
    }
}

/// What `schema` reads moves the cursor forward.
pub proof fn schema_moves(tokens: Seq<TokenModel>, cursor: Cursor)
    ensures
        schema(tokens, cursor) matches Ok((_, next)) ==> cursor.index < next.index && within(
            tokens,
            next,
        ),
{
    let what = "`{` to open a field block"@;
    let closing = "`}` to close a field block"@;
    let word = TokenKind::Keyword(Keyword::Schema);
    expected_moves(tokens, taken(cursor), word, "`schema`"@);
    match expected(tokens, taken(cursor), word, "`schema`"@) {
        Ok((_, second)) => {
            identifier_moves(tokens, second, "a schema name"@);
            match identifier(tokens, second, "a schema name"@) {
                Ok((_, third)) => {
                    constraint_moves(tokens, third);
                    match constraint(tokens, third) {
                        Ok((_, fourth)) => {
                            expected_moves(tokens, fourth, TokenKind::LeftBrace, what);
                            match expected(tokens, fourth, TokenKind::LeftBrace, what) {
                                Ok((_, fifth)) => {
                                    trailing_moves(tokens, fifth.index);
                                    let (_, sixth) = remarked(tokens, fifth, cursor.pending);
                                    schema_fields_move(tokens, sixth, Seq::empty());
                                    match schema_fields(tokens, sixth, Seq::empty()) {
                                        Ok((_, seventh)) => closing_moves(tokens, taken(seventh), closing),
                                        Err(_) => {}
                                    }
                                }
                                Err(_) => {}
                            }
                        }
                        Err(_) => {}
                    }
                }
                Err(_) => {}
            }
        }
        Err(_) => {}
    }
}

/// More schema names move the cursor forward.
pub proof fn more_schemas_move(
    tokens: Seq<TokenModel>,
    cursor: Cursor,
    before: Seq<Spanned<Seq<char>>>,
)
    ensures
        more_schemas(tokens, cursor, before) matches Ok((_, next)) ==> cursor.index <= next.index
            && (within(tokens, cursor) ==> within(tokens, next)),
    decreases tokens.len() - cursor.index,
{
    skip_moves(tokens, cursor);
    let (separated, next) = eaten(tokens, cursor, TokenKind::Comma);
    if separated {
        identifier_moves(tokens, next, "a schema name"@);
        match identifier(tokens, next, "a schema name"@) {
            Ok((name, last)) => more_schemas_move(tokens, last, before.push(name)),
            Err(_) => {}
        }
    }
}

/// What `node` reads moves the cursor forward.
pub proof fn node_moves(tokens: Seq<TokenModel>, cursor: Cursor)
    ensures
        node(tokens, cursor) matches Ok((_, next)) ==> cursor.index < next.index && within(
            tokens,
            next,
        ),
{
    let word = TokenKind::Keyword(Keyword::Node);
    let colon = "`:` before the schema names"@;
    expected_moves(tokens, taken(cursor), word, "`node`"@);
    match expected(tokens, taken(cursor), word, "`node`"@) {
        Ok((_, second)) => {
            identifier_moves(tokens, second, "a node name"@);
            match identifier(tokens, second, "a node name"@) {
                Ok((_, third)) => {
                    expected_moves(tokens, third, TokenKind::Colon, colon);
                    match expected(tokens, third, TokenKind::Colon, colon) {
                        Ok((_, fourth)) => {
                            identifier_moves(tokens, fourth, "a schema name"@);
                            match identifier(tokens, fourth, "a schema name"@) {
                                Ok((first, fifth)) => {
                                    more_schemas_move(tokens, fifth, seq![first]);
                                    match more_schemas(tokens, fifth, seq![first]) {
                                        Ok((_, sixth)) => record_body_moves(
                                            tokens,
                                            sixth,
                                            cursor.pending,
                                        ),
                                        Err(_) => {}
                                    }
                                }
                                Err(_) => {}
                            }
                        }
                        Err(_) => {}
                    }
                }
                Err(_) => {}
            }
        }
        Err(_) => {}
    }
}

/// What `edge` reads moves the cursor forward.
pub proof fn edge_moves(tokens: Seq<TokenModel>, cursor: Cursor)
    ensures
        edge(tokens, cursor) matches Ok((_, next)) ==> cursor.index < next.index && within(
            tokens,
            next,
        ),
{
    let word = TokenKind::Keyword(Keyword::Edge);
    let arrow = "`->` between the endpoints"@;
    let colon = "`:` before a relation name"@;
    expected_moves(tokens, taken(cursor), word, "`edge`"@);
    match expected(tokens, taken(cursor), word, "`edge`"@) {
        Ok((_, second)) => {
            endpoint_moves(tokens, second);
            match endpoint(tokens, second) {
                Ok((_, third)) => {
                    expected_moves(tokens, third, TokenKind::Arrow, arrow);
                    match expected(tokens, third, TokenKind::Arrow, arrow) {
                        Ok((_, fourth)) => {
                            endpoint_moves(tokens, fourth);
                            match endpoint(tokens, fourth) {
                                Ok((_, fifth)) => {
                                    expected_moves(tokens, fifth, TokenKind::Colon, colon);
                                    match expected(tokens, fifth, TokenKind::Colon, colon) {
                                        Ok((_, sixth)) => {
                                            identifier_moves(tokens, sixth, "a relation name"@);
                                            match identifier(tokens, sixth, "a relation name"@) {
                                                Ok((_, seventh)) => record_body_moves(
                                                    tokens,
                                                    seventh,
                                                    cursor.pending,
                                                ),
                                                Err(_) => {}
                                            }
                                        }
                                        Err(_) => {}
                                    }
                                }
                                Err(_) => {}
                            }
                        }
                        Err(_) => {}
                    }
                }
                Err(_) => {}
            }
        }
        Err(_) => {}
    }
}

/// What `link` reads moves the cursor forward.
pub proof fn link_moves(tokens: Seq<TokenModel>, cursor: Cursor)
    ensures
        link(tokens, cursor) matches Ok((_, next)) ==> cursor.index < next.index && within(
            tokens,
            next,
        ),
{
    quoted_moves(tokens, step(taken(cursor)), "a quoted link locator"@);
    match quoted(tokens, step(taken(cursor)), "a quoted link locator"@) {
        Ok((_, second)) => {
            let third = skip(tokens, second);
            skip_moves(tokens, second);
            identifier_moves(tokens, step(third), "a link alias"@);
            trailing_moves(tokens, second.index);
            match identifier(tokens, step(third), "a link alias"@) {
                Ok((_, fourth)) => trailing_moves(tokens, fourth.index),
                Err(_) => {}
            }
        }
        Err(_) => {}
    }
}
// -- Reading -----------------------------------------------------------------------

struct Parser {
    tokens: Vec<Token>,
    index: usize,
    pending: Vec<Comment>,
}

impl Parser {
    spec fn t(&self) -> Seq<TokenModel> {
        views(self.tokens@)
    }

    spec fn c(&self) -> Cursor {
        Cursor { index: self.index as int, pending: views(self.pending@) }
    }

    spec fn valid(&self) -> bool {
        &&& self.index < self.tokens.len()
        &&& self.tokens@.last().kind == TokenKind::Eof
    }

    spec fn follows(&self, before: Parser) -> bool {
        self.t() == before.t() && self.valid()
    }

    fn kind(&self) -> (found: TokenKind)
        requires
            self.valid(),
        ensures
            found == kind(self.t(), self.c()),
    {
        self.tokens[self.index].kind
    }

    fn range(&self) -> (found: SourceRange)
        requires
            self.valid(),
        ensures
            found == here(self.t(), self.c()).range,
    {
        self.tokens[self.index].range
    }

    fn error(&self, message: &str) -> (error: ParseError)
        requires
            self.valid(),
        ensures
            error@ == (ParseErrorModel {
                message: message@,
                range: here(self.t(), self.c()).range,
            }),
    {
        ParseError { message: message.to_owned(), range: self.range() }
    }

    fn error_expected(&self, what: &str) -> (error: ParseError)
        requires
            self.valid(),
        ensures
            error@ == (ParseErrorModel {
                message: "expected "@ + what@,
                range: here(self.t(), self.c()).range,
            }),
    {
        ParseError { message: joined("expected ", what), range: self.range() }
    }

    fn bump(&mut self)
        requires
            old(self).valid(),
            kind(old(self).t(), old(self).c()) != TokenKind::Eof,
        ensures
            final(self).c() == step(old(self).c()),
            final(self).follows(*old(self)),
    {
        assert(self.tokens@.last() == self.tokens@[self.tokens@.len() - 1]);
        self.index = self.index + 1;
    }

    /// Skips trivia, collecting comments as pending leading comments.
    fn skip_trivia(&mut self)
        requires
            old(self).valid(),
        ensures
            final(self).c() == skip(old(self).t(), old(self).c()),
            final(self).follows(*old(self)),
    {
        let ghost tokens = self.t();
        let ghost first = self.c();
        loop
            invariant
                self.valid(),
                self.t() == tokens,
                skip(tokens, first) == skip(tokens, self.c()),
            ensures
                self.c() == skip(tokens, first),
            decreases tokens.len() - self.index,
        {
            match self.kind() {
                TokenKind::Trivia(TriviaKind::Whitespace) => {
                    self.bump();
                }
                TokenKind::Trivia(kind) => {
                    let comment = Comment {
                        text: self.tokens[self.index].text.clone(),
                        block: kind == TriviaKind::BlockComment,
                        range: self.range(),
                    };
                    proof {
                        views_push(self.pending@, comment);
                    }
                    self.pending.push(comment);
                    self.bump();
                }
                _ => {
                    break;
                }
            }
        }
    }

    /// Takes a comment on the same line as the construct just parsed.
    fn take_trailing(&mut self) -> (found: Option<Comment>)
        requires
            old(self).valid(),
        ensures
            view_of(found) == trailing(old(self).t(), old(self).c()).0,
            final(self).c() == trailing(old(self).t(), old(self).c()).1,
            final(self).follows(*old(self)),
    {
        let ghost tokens = self.t();
        let mut at: usize = self.index;
        loop
            invariant
                self.valid(),
                self.t() == tokens,
                *self == *old(self),
                self.index <= at < self.tokens.len(),
                trailing_at(tokens, self.index as int) == trailing_at(tokens, at as int),
            decreases tokens.len() - at,
        {
            assert(tokens[at as int] == self.tokens@[at as int]@);
            assert(self.tokens@.last() == self.tokens@[self.tokens@.len() - 1]);
            match self.tokens[at].kind {
                TokenKind::Trivia(TriviaKind::Whitespace) => {
                    at = at + 1;
                }
                TokenKind::Trivia(kind) => {
                    if self.tokens[at].on_own_line {
                        return None;
                    }
                    let comment = Comment {
                        text: self.tokens[at].text.clone(),
                        block: kind == TriviaKind::BlockComment,
                        range: self.tokens[at].range,
                    };
                    self.index = at + 1;
                    return Some(comment);
                }
                _ => {
                    return None;
                }
            }
        }
    }

    fn take_pending(&mut self) -> (found: Vec<Comment>)
        requires
            old(self).valid(),
        ensures
            views(found@) == old(self).c().pending,
            final(self).c() == taken(old(self).c()),
            final(self).follows(*old(self)),
    {
        let mut found: Vec<Comment> = Vec::new();
        std::mem::swap(&mut found, &mut self.pending);
        assert(views(self.pending@) =~= Seq::<CommentModel>::empty());
        found
    }

    fn expect(&mut self, wanted: TokenKind, what: &str) -> (read: Result<Token, ParseError>)
        requires
            old(self).valid(),
            wanted != TokenKind::Eof,
        ensures
            match read {
                Ok(value) => expected(old(self).t(), old(self).c(), wanted, what@) matches Ok(
                    (model, cursor),
                ) && model == value@ && cursor == final(self).c() && final(self).follows(
                    *old(self),
                ),
                Err(error) => expected(old(self).t(), old(self).c(), wanted, what@) matches Err(
                    wrong,
                ) && wrong == error@,
            },
    {
        self.skip_trivia();
        if self.kind() == wanted {
            let token = self.tokens[self.index].copied();
            self.bump();
            Ok(token)
        } else {
            Err(self.error_expected(what))
        }
    }

    fn eat(&mut self, wanted: TokenKind) -> (found: bool)
        requires
            old(self).valid(),
            wanted != TokenKind::Eof,
        ensures
            found == eaten(old(self).t(), old(self).c(), wanted).0,
            final(self).c() == eaten(old(self).t(), old(self).c(), wanted).1,
            final(self).follows(*old(self)),
    {
        self.skip_trivia();
        if self.kind() == wanted {
            self.bump();
            true
        } else {
            false
        }
    }

    /// Takes the comments of a construct that ends here, or whose head does: those that led
    /// it, those within it, and the one that trails it on the same line.
    fn take_remarks(&mut self, leading: Vec<Comment>) -> (comments: Comments)
        requires
            old(self).valid(),
        ensures
            (comments@, final(self).c()) == remarked(old(self).t(), old(self).c(), views(leading@)),
            final(self).follows(*old(self)),
    {
        let mut leading = leading;
        let mut within = self.take_pending();
        assert(views(leading@ + within@) =~= views(leading@) + views(within@));
        leading.append(&mut within);
        let trailing = self.take_trailing();
        Comments { leading, trailing }
    }

    /// Takes the comments at the end of a block whose brace was just closed: the one that
    /// follows the brace on the same line trails the block where nothing stands in it, and
    /// otherwise comes behind those left within it.
    fn take_closing(&mut self, comments: Comments, hollow: bool, left: Vec<Comment>) -> (found: (
        Comments,
        Vec<Comment>,
    ))
        requires
            old(self).valid(),
        ensures
            (found.0@, views(found.1@), final(self).c()) == closed(
                old(self).t(),
                old(self).c(),
                comments@,
                hollow,
                views(left@),
            ),
            final(self).follows(*old(self)),
    {
        let trailing = self.take_trailing();
        if hollow && comments.trailing.is_none() && left.len() == 0 {
            return (Comments { leading: comments.leading, trailing }, left);
        }
        let mut block_comments = left;
        match trailing {
            Some(comment) => {
                proof {
                    views_push(block_comments@, comment);
                    assert(views(left@).push(comment@) =~= views(left@) + seq![comment@]);
                }
                block_comments.push(comment);
            }
            None => {
                assert(views(left@) + Seq::<CommentModel>::empty() =~= views(left@));
            }
        }
        (comments, block_comments)
    }

    /// Closes one comma-separated entry: whether a comma followed, and the comments of the
    /// entry.
    ///
    /// A trailing comment may sit on either side of the separator. It is claimed before the
    /// comma is looked for, because looking for the comma skips trivia, and skipping trivia
    /// files every comment as a leading one.
    fn finish_entry(&mut self, leading: Vec<Comment>) -> (found: (bool, Comments))
        requires
            old(self).valid(),
        ensures
            (found.0, found.1@, final(self).c()) == entry_end(
                old(self).t(),
                old(self).c(),
                views(leading@),
            ),
            final(self).follows(*old(self)),
    {
        let first = self.take_remarks(leading);
        let separated = self.eat(TokenKind::Comma);
        if first.trailing.is_some() || !separated {
            (separated, first)
        } else {
            (separated, self.take_remarks(first.leading))
        }
    }

    /// Whether a token of one kind stands behind the trivia here, which is left where it is.
    fn stands_next(&self, wanted: TokenKind) -> (answer: bool)
        requires
            self.valid(),
        ensures
            answer == (kind(self.t(), skip(self.t(), self.c())) == wanted),
    {
        let ghost tokens = self.t();
        proof {
            skip_by_index(
                tokens,
                self.c(),
                Cursor { index: self.index as int, pending: Seq::empty() },
            );
        }
        let mut at: usize = self.index;
        loop
            invariant
                self.valid(),
                self.t() == tokens,
                self.index <= at < self.tokens.len(),
                skip(tokens, self.c()).index == skip(
                    tokens,
                    Cursor { index: at as int, pending: Seq::empty() },
                ).index,
            decreases tokens.len() - at,
        {
            assert(tokens[at as int] == self.tokens@[at as int]@);
            assert(self.tokens@.last() == self.tokens@[self.tokens@.len() - 1]);
            match self.tokens[at].kind {
                TokenKind::Trivia(_) => {
                    proof {
                        let comment = comment_of(tokens[at as int]);
                        skip_by_index(
                            tokens,
                            Cursor { index: at + 1, pending: Seq::empty().push(comment) },
                            Cursor { index: at + 1, pending: Seq::empty() },
                        );
                    }
                    at = at + 1;
                }
                found => {
                    return found == wanted;
                }
            }
        }
    }

    fn at_name(&self) -> (answer: bool)
        requires
            self.valid(),
        ensures
            answer == names(kind(self.t(), self.c())),
    {
        match self.kind() {
            TokenKind::Identifier => true,
            TokenKind::Keyword(Keyword::Id) => true,
            TokenKind::Keyword(Keyword::Module) => true,
            TokenKind::Keyword(Keyword::Source) => true,
            _ => false,
        }
    }

    /// Takes the token here, as a text with its range.
    fn take_spanned(&mut self) -> (found: Spanned<String>)
        requires
            old(self).valid(),
            kind(old(self).t(), old(self).c()) != TokenKind::Eof,
        ensures
            found@ == spanned(here(old(self).t(), old(self).c())),
            final(self).c() == step(old(self).c()),
            final(self).follows(*old(self)),
    {
        let found = Spanned { value: self.tokens[self.index].text.clone(), range: self.range() };
        self.bump();
        found
    }

    fn expect_identifier(&mut self, what: &str) -> (read: Result<Spanned<String>, ParseError>)
        requires
            old(self).valid(),
        ensures
            match read {
                Ok(found) => identifier(old(self).t(), old(self).c(), what@) matches Ok((model, cursor)) && model == found@ && cursor
                    == final(self).c() && final(self).follows(*old(self)),
                Err(error) => identifier(old(self).t(), old(self).c(), what@) matches Err(wrong) && wrong == error@,
            },
    {
        self.skip_trivia();
        if self.at_name() {
            return Ok(self.take_spanned());
        }
        match self.kind() {
            TokenKind::Keyword(word) => {
                let mut message = joined("expected ", what);
                message.append(", found the reserved word `");
                message.append(word.as_str());
                message.append("`");
                Err(self.error(message.as_str()))
            }
            _ => Err(self.error_expected(what)),
        }
    }

    fn expect_string(&mut self, what: &str) -> (read: Result<Spanned<String>, ParseError>)
        requires
            old(self).valid(),
        ensures
            match read {
                Ok(found) => quoted(old(self).t(), old(self).c(), what@) matches Ok((model, cursor)) && model == found@ && cursor
                    == final(self).c() && final(self).follows(*old(self)),
                Err(error) => quoted(old(self).t(), old(self).c(), what@) matches Err(wrong) && wrong == error@,
            },
    {
        match self.expect(TokenKind::StringLiteral, what) {
            Err(error) => Err(error),
            Ok(token) => Ok(Spanned { value: token.text, range: token.range }),
        }
    }

    fn parse_endpoint(&mut self) -> (read: Result<Endpoint, ParseError>)
        requires
            old(self).valid(),
        ensures
            match read {
                Ok(found) => endpoint(old(self).t(), old(self).c()) matches Ok((model, cursor)) && model == found@ && cursor
                    == final(self).c() && final(self).follows(*old(self)),
                Err(error) => endpoint(old(self).t(), old(self).c()) matches Err(wrong) && wrong == error@,
            },
    {
        self.skip_trivia();
        proof {
            skip_moves(old(self).t(), old(self).c());
        }
        if self.kind() == TokenKind::StringLiteral {
            let locator = match self.expect_string("a locator") {
                Err(error) => return Err(error),
                Ok(found) => found,
            };
            match self.expect(TokenKind::ColonColon, "`::` after a locator") {
                Err(error) => return Err(error),
                Ok(_) => {}
            }
            let name = match self.expect_identifier("a declaration name") {
                Err(error) => return Err(error),
                Ok(found) => found,
            };
            return Ok(Endpoint::Locator { locator, name });
        }
        let first = match self.expect_identifier("an endpoint") {
            Err(error) => return Err(error),
            Ok(found) => found,
        };
        self.skip_trivia();
        if self.kind() == TokenKind::ColonColon {
            self.bump();
            let name = match self.expect_identifier("a declaration name") {
                Err(error) => return Err(error),
                Ok(found) => found,
            };
            return Ok(Endpoint::Aliased { alias: first, name });
        }
        Ok(Endpoint::Local(first))
    }

    fn parse_scalar(&mut self) -> (read: Result<Spanned<Value>, ParseError>)
        requires
            old(self).valid(),
        ensures
            match read {
                Ok(found) => scalar(old(self).t(), old(self).c()) matches Ok((model, cursor)) && model == found@ && cursor
                    == final(self).c() && final(self).follows(*old(self)),
                Err(error) => scalar(old(self).t(), old(self).c()) matches Err(wrong) && wrong == error@,
            },
    {
        self.skip_trivia();
        let range = self.range();
        let token = &self.tokens[self.index];
        let value = match token.kind {
            TokenKind::Keyword(Keyword::True) => Value::Boolean(true),
            TokenKind::Keyword(Keyword::False) => Value::Boolean(false),
            TokenKind::IntegerLiteral => Value::Integer(token.text.clone()),
            TokenKind::FloatLiteral => Value::Float(token.text.clone()),
            TokenKind::StringLiteral => Value::String(token.text.clone()),
            TokenKind::BytesLiteral => Value::Bytes {
                decoded: copy_bytes(&token.bytes),
                digits: token.text.clone(),
            },
            TokenKind::DateTimeLiteral => Value::DateTime(token.text.clone()),
            TokenKind::LeftBracket => {
                return Err(self.error("a list holds scalars only, so it does not nest"));
            }
            _ => {
                return Err(self.error("expected a scalar value"));
            }
        };
        self.bump();
        Ok(Spanned { value, range })
    }

    fn parse_scalars(&mut self) -> (read: Result<Vec<Spanned<Value>>, ParseError>)
        requires
            old(self).valid(),
        ensures
            match read {
                Ok(items) => scalars(old(self).t(), old(self).c(), Seq::empty()) matches Ok(
                    (model, cursor),
                ) && model == views(items@) && cursor == final(self).c() && final(self).follows(
                    *old(self),
                ),
                Err(error) => scalars(old(self).t(), old(self).c(), Seq::empty()) matches Err(wrong)
                    && wrong == error@,
            },
    {
        let ghost tokens = self.t();
        let ghost first = self.c();
        let mut items: Vec<Spanned<Value>> = Vec::new();
        assert(views(items@) =~= Seq::<Spanned<ValueModel>>::empty());
        loop
            invariant
                self.valid(),
                self.t() == tokens,
                old(self).t() == tokens,
                old(self).c() == first,
                scalars(tokens, first, Seq::empty()) == scalars(tokens, self.c(), views(items@)),
            decreases tokens.len() - self.index,
        {
            let ghost here = self.c();
            proof {
                scalar_moves(tokens, here);
            }
            let item = match self.parse_scalar() {
                Err(error) => return Err(error),
                Ok(found) => found,
            };
            proof {
                views_push(items@, item);
                skip_moves(tokens, self.c());
            }
            items.push(item);
            self.skip_trivia();
            if self.kind() != TokenKind::Comma {
                return Ok(items);
            }
            self.bump();
            proof {
                skip_moves(tokens, self.c());
            }
            self.skip_trivia();
            if self.kind() == TokenKind::RightBracket {
                return Err(self.error("a list takes no trailing comma"));
            }
        }
    }

    fn parse_value(&mut self) -> (read: Result<Spanned<Value>, ParseError>)
        requires
            old(self).valid(),
        ensures
            match read {
                Ok(found) => value(old(self).t(), old(self).c()) matches Ok((model, cursor)) && model == found@ && cursor
                    == final(self).c() && final(self).follows(*old(self)),
                Err(error) => value(old(self).t(), old(self).c()) matches Err(wrong) && wrong == error@,
            },
    {
        self.skip_trivia();
        proof {
            skip_moves(old(self).t(), old(self).c());
        }
        if self.kind() != TokenKind::LeftBracket {
            return self.parse_scalar();
        }
        let open = self.range();
        self.bump();
        self.skip_trivia();
        let items = if self.kind() == TokenKind::RightBracket {
            let none: Vec<Spanned<Value>> = Vec::new();
            assert(views(none@) =~= Seq::<Spanned<ValueModel>>::empty());
            none
        } else {
            match self.parse_scalars() {
                Err(error) => return Err(error),
                Ok(found) => found,
            }
        };
        let close = match self.expect(TokenKind::RightBracket, "`]`") {
            Err(error) => return Err(error),
            Ok(found) => found,
        };
        proof {
            list_model(items@);
        }
        Ok(
            Spanned {
                value: Value::List(items),
                range: SourceRange::new_or(open.start(), close.range.end(), open),
            },
        )
    }

    fn parse_property(&mut self) -> (read: Result<(Property, bool), ParseError>)
        requires
            old(self).valid(),
        ensures
            match read {
                Ok(found) => property(old(self).t(), old(self).c()) matches Ok((model, cursor))
                    && model == (found.0@, found.1) && cursor == final(self).c() && final(self).follows(*old(self)),
                Err(error) => property(old(self).t(), old(self).c()) matches Err(wrong) && wrong
                    == error@,
            },
    {
        let leading = self.take_pending();
        let key = match self.expect_identifier("a property key") {
            Err(error) => return Err(error),
            Ok(found) => found,
        };
        match self.expect(TokenKind::Colon, "`:` after a property key") {
            Err(error) => return Err(error),
            Ok(_) => {}
        }
        let value = match self.parse_value() {
            Err(error) => return Err(error),
            Ok(found) => found,
        };
        let (separated, comments) = self.finish_entry(leading);
        Ok((Property { key, value, comments }, separated))
    }

    fn parse_properties(&mut self) -> (read: Result<Vec<Property>, ParseError>)
        requires
            old(self).valid(),
        ensures
            match read {
                Ok(items) => properties(old(self).t(), old(self).c(), Seq::empty()) matches Ok((model, cursor))
                    && model == views(items@) && cursor == final(self).c() && final(self).follows(*old(self)),
                Err(error) => properties(old(self).t(), old(self).c(), Seq::empty()) matches Err(wrong)
                    && wrong == error@,
            },
    {
        let ghost tokens = self.t();
        let ghost first = self.c();
        let mut found: Vec<Property> = Vec::new();
        assert(views(found@) =~= Seq::<PropertyModel>::empty());
        loop
            invariant
                self.valid(),
                self.t() == tokens,
                old(self).t() == tokens,
                old(self).c() == first,
                properties(tokens, first, Seq::empty()) == properties(
                    tokens,
                    self.c(),
                    views(found@),
                ),
            decreases tokens.len() - self.index,
        {
            proof {
                skip_moves(tokens, self.c());
            }
            self.skip_trivia();
            if !self.at_name() {
                return Ok(found);
            }
            proof {
                property_moves(tokens, self.c());
            }
            let (item, separated) = match self.parse_property() {
                Err(error) => return Err(error),
                Ok(pair) => pair,
            };
            proof {
                views_push(found@, item);
            }
            found.push(item);
            if !separated {
                return Ok(found);
            }
        }
    }

    fn parse_evidence_value(&mut self) -> (read: Result<Spanned<EvidenceValue>, ParseError>)
        requires
            old(self).valid(),
        ensures
            match read {
                Ok(found) => evidence_value(old(self).t(), old(self).c()) matches Ok((model, cursor)) && model == found@ && cursor
                    == final(self).c() && final(self).follows(*old(self)),
                Err(error) => evidence_value(old(self).t(), old(self).c()) matches Err(wrong) && wrong == error@,
            },
    {
        self.skip_trivia();
        proof {
            skip_moves(old(self).t(), old(self).c());
        }
        if self.kind() == TokenKind::StringLiteral {
            return match self.expect_string("a quoted value") {
                Err(error) => Err(error),
                Ok(text) => Ok(
                    Spanned { value: EvidenceValue::Text(text.value), range: text.range },
                ),
            };
        }
        let name = match self.expect_identifier("a quoted value or a bare word") {
            Err(error) => return Err(error),
            Ok(found) => found,
        };
        if !self.stands_next(TokenKind::LeftParen) {
            return Ok(
                Spanned {
                    value: EvidenceValue::Enumerator { name: name.value, score: None },
                    range: name.range,
                },
            );
        }
        self.skip_trivia();
        self.bump();
        self.skip_trivia();
        if self.kind() != TokenKind::FloatLiteral && self.kind() != TokenKind::IntegerLiteral {
            return Err(self.error("expected a score, written as a number"));
        }
        let score = self.take_spanned();
        let close = match self.expect(TokenKind::RightParen, "`)` after a score") {
            Err(error) => return Err(error),
            Ok(found) => found,
        };
        Ok(
            Spanned {
                value: EvidenceValue::Enumerator { name: name.value, score: Some(score.value) },
                range: SourceRange::new_or(name.range.start(), close.range.end(), name.range),
            },
        )
    }

    fn parse_evidence_field(&mut self) -> (read: Result<(EvidenceField, bool), ParseError>)
        requires
            old(self).valid(),
        ensures
            match read {
                Ok(found) => evidence_field(old(self).t(), old(self).c()) matches Ok(
                    (model, cursor),
                ) && model == (found.0@, found.1) && cursor == final(self).c() && final(self).follows(*old(self)),
                Err(error) => evidence_field(old(self).t(), old(self).c()) matches Err(wrong)
                    && wrong == error@,
            },
    {
        let leading = self.take_pending();
        let key = match self.expect_identifier("an evidence key") {
            Err(error) => return Err(error),
            Ok(found) => found,
        };
        match self.expect(TokenKind::Colon, "`:` after an evidence key") {
            Err(error) => return Err(error),
            Ok(_) => {}
        }
        let value = match self.parse_evidence_value() {
            Err(error) => return Err(error),
            Ok(found) => found,
        };
        let (separated, comments) = self.finish_entry(leading);
        Ok((EvidenceField { key, value, comments }, separated))
    }

    fn parse_evidence_fields(&mut self) -> (read: Result<Vec<EvidenceField>, ParseError>)
        requires
            old(self).valid(),
        ensures
            match read {
                Ok(items) => evidence_fields(old(self).t(), old(self).c(), Seq::empty()) matches Ok((model, cursor))
                    && model == views(items@) && cursor == final(self).c() && final(self).follows(*old(self)),
                Err(error) => evidence_fields(old(self).t(), old(self).c(), Seq::empty()) matches Err(wrong)
                    && wrong == error@,
            },
    {
        let ghost tokens = self.t();
        let ghost first = self.c();
        let mut found: Vec<EvidenceField> = Vec::new();
        assert(views(found@) =~= Seq::<EvidenceFieldModel>::empty());
        loop
            invariant
                self.valid(),
                self.t() == tokens,
                old(self).t() == tokens,
                old(self).c() == first,
                evidence_fields(tokens, first, Seq::empty()) == evidence_fields(
                    tokens,
                    self.c(),
                    views(found@),
                ),
            decreases tokens.len() - self.index,
        {
            proof {
                skip_moves(tokens, self.c());
            }
            self.skip_trivia();
            if !self.at_name() {
                return Ok(found);
            }
            proof {
                evidence_field_moves(tokens, self.c());
            }
            let (item, separated) = match self.parse_evidence_field() {
                Err(error) => return Err(error),
                Ok(pair) => pair,
            };
            proof {
                views_push(found@, item);
            }
            found.push(item);
            if !separated {
                return Ok(found);
            }
        }
    }

    fn parse_evidence(&mut self) -> (read: Result<EvidenceBlock, ParseError>)
        requires
            old(self).valid(),
        ensures
            match read {
                Ok(found) => evidence(old(self).t(), old(self).c()) matches Ok((model, cursor)) && model == found@ && cursor
                    == final(self).c() && final(self).follows(*old(self)),
                Err(error) => evidence(old(self).t(), old(self).c()) matches Err(wrong) && wrong == error@,
            },
    {
        let leading = self.take_pending();
        let open = match self.expect(TokenKind::EvidenceDirective, "`@evidence`") {
            Err(error) => return Err(error),
            Ok(found) => found,
        };
        match self.expect(TokenKind::LeftBrace, "`{` to open an evidence block") {
            Err(error) => return Err(error),
            Ok(_) => {}
        }
        let comments = self.take_remarks(leading);
        let fields = match self.parse_evidence_fields() {
            Err(error) => return Err(error),
            Ok(found) => found,
        };
        let left = self.take_pending();
        match self.expect(TokenKind::RightBrace, "`}` to close an evidence block") {
            Err(error) => return Err(error),
            Ok(_) => {}
        }
        let hollow = fields.len() == 0;
        let (comments, block_comments) = self.take_closing(comments, hollow, left);
        Ok(
            EvidenceBlock {
                fields,
                range: open.range,
                comments,
                block_comments,
            },
        )
    }

    fn parse_evidence_blocks(&mut self) -> (read: Result<Vec<EvidenceBlock>, ParseError>)
        requires
            old(self).valid(),
        ensures
            match read {
                Ok(items) => evidence_blocks(old(self).t(), old(self).c(), Seq::empty()) matches Ok((model, cursor))
                    && model == views(items@) && cursor == final(self).c() && final(self).follows(*old(self)),
                Err(error) => evidence_blocks(old(self).t(), old(self).c(), Seq::empty()) matches Err(wrong)
                    && wrong == error@,
            },
    {
        let ghost tokens = self.t();
        let ghost first = self.c();
        let mut found: Vec<EvidenceBlock> = Vec::new();
        assert(views(found@) =~= Seq::<EvidenceBlockModel>::empty());
        loop
            invariant
                self.valid(),
                self.t() == tokens,
                old(self).t() == tokens,
                old(self).c() == first,
                evidence_blocks(tokens, first, Seq::empty()) == evidence_blocks(
                    tokens,
                    self.c(),
                    views(found@),
                ),
            decreases tokens.len() - self.index,
        {
            proof {
                skip_moves(tokens, self.c());
            }
            self.skip_trivia();
            if self.kind() != TokenKind::EvidenceDirective {
                return Ok(found);
            }
            proof {
                evidence_moves(tokens, self.c());
            }
            let item = match self.parse_evidence() {
                Err(error) => return Err(error),
                Ok(block) => block,
            };
            proof {
                views_push(found@, item);
            }
            found.push(item);
        }
    }

    fn parse_owner(&mut self) -> (read: Result<OwnerDeclaration, ParseError>)
        requires
            old(self).valid(),
        ensures
            match read {
                Ok(found) => owner(old(self).t(), old(self).c()) matches Ok((model, cursor)) && model == found@ && cursor
                    == final(self).c() && final(self).follows(*old(self)),
                Err(error) => owner(old(self).t(), old(self).c()) matches Err(wrong) && wrong == error@,
            },
    {
        self.skip_trivia();
        if self.kind() == TokenKind::StringLiteral {
            return Ok(OwnerDeclaration::Named { name: self.take_spanned() });
        }
        if !self.at_name() {
            return Err(self.error("expected `analyzer`, `ai`, or `user` after `@by`"));
        }
        let range = self.range();
        if same(self.tokens[self.index].text.as_str(), "analyzer") {
            self.bump();
            let name = match self.expect_string("a quoted analyzer name") {
                Err(error) => return Err(error),
                Ok(found) => found,
            };
            let version = match self.expect_string("a quoted analyzer version") {
                Err(error) => return Err(error),
                Ok(found) => found,
            };
            return Ok(OwnerDeclaration::Analyzer { name, version });
        }
        if same(self.tokens[self.index].text.as_str(), "ai") {
            self.bump();
            let contract_digest = match self.expect_string("a quoted analysis contract digest") {
                Err(error) => return Err(error),
                Ok(found) => found,
            };
            return Ok(OwnerDeclaration::Ai { contract_digest });
        }
        if same(self.tokens[self.index].text.as_str(), "user") {
            self.bump();
            return Ok(OwnerDeclaration::User { range });
        }
        let mut message = joined(
            "expected `analyzer`, `ai`, or `user` after `@by`",
            ", found `",
        );
        message.append(self.tokens[self.index].text.as_str());
        message.append("`");
        Err(self.error(message.as_str()))
    }

    fn parse_unit(&mut self) -> (read: Result<Option<Spanned<String>>, ParseError>)
        requires
            old(self).valid(),
        ensures
            match read {
                Ok(found) => unit(old(self).t(), old(self).c()) matches Ok((model, cursor)) && model
                    == view_of(found) && cursor == final(self).c() && final(self).follows(
                    *old(self),
                ),
                Err(error) => unit(old(self).t(), old(self).c()) matches Err(wrong) && wrong
                    == error@,
            },
    {
        self.skip_trivia();
        if self.kind() == TokenKind::Identifier && same(
            self.tokens[self.index].text.as_str(),
            "unit",
        ) {
            self.bump();
            return match self.expect_string("a quoted source unit identifier") {
                Err(error) => Err(error),
                Ok(found) => Ok(Some(found)),
            };
        }
        Ok(None)
    }

    fn parse_contribution(&mut self) -> (read: Result<ContributionBlock, ParseError>)
        requires
            old(self).valid(),
        ensures
            match read {
                Ok(found) => contribution(old(self).t(), old(self).c()) matches Ok((model, cursor)) && model == found@ && cursor
                    == final(self).c() && final(self).follows(*old(self)),
                Err(error) => contribution(old(self).t(), old(self).c()) matches Err(wrong) && wrong == error@,
            },
    {
        let leading = self.take_pending();
        match self.expect(TokenKind::ByDirective, "`@by`") {
            Err(error) => return Err(error),
            Ok(_) => {}
        }
        let owner = match self.parse_owner() {
            Err(error) => return Err(error),
            Ok(found) => found,
        };
        let unit = match self.parse_unit() {
            Err(error) => return Err(error),
            Ok(found) => found,
        };
        match self.expect(TokenKind::LeftBrace, "`{` to open a contribution block") {
            Err(error) => return Err(error),
            Ok(_) => {}
        }
        let comments = self.take_remarks(leading);
        let evidence = match self.parse_evidence_blocks() {
            Err(error) => return Err(error),
            Ok(found) => found,
        };
        let left = self.take_pending();
        match self.expect(TokenKind::RightBrace, "`}` to close a contribution block") {
            Err(error) => return Err(error),
            Ok(_) => {}
        }
        let hollow = evidence.len() == 0;
        let (comments, block_comments) = self.take_closing(comments, hollow, left);
        Ok(
            ContributionBlock {
                owner,
                unit,
                evidence,
                comments,
                block_comments,
            },
        )
    }

    fn parse_contributions(&mut self) -> (read: Result<Vec<ContributionBlock>, ParseError>)
        requires
            old(self).valid(),
        ensures
            match read {
                Ok(items) => contributions(old(self).t(), old(self).c(), Seq::empty()) matches Ok((model, cursor))
                    && model == views(items@) && cursor == final(self).c() && final(self).follows(*old(self)),
                Err(error) => contributions(old(self).t(), old(self).c(), Seq::empty()) matches Err(wrong)
                    && wrong == error@,
            },
    {
        let ghost tokens = self.t();
        let ghost first = self.c();
        let mut found: Vec<ContributionBlock> = Vec::new();
        assert(views(found@) =~= Seq::<ContributionBlockModel>::empty());
        loop
            invariant
                self.valid(),
                self.t() == tokens,
                old(self).t() == tokens,
                old(self).c() == first,
                contributions(tokens, first, Seq::empty()) == contributions(
                    tokens,
                    self.c(),
                    views(found@),
                ),
            decreases tokens.len() - self.index,
        {
            proof {
                skip_moves(tokens, self.c());
            }
            self.skip_trivia();
            if self.kind() != TokenKind::ByDirective {
                return Ok(found);
            }
            proof {
                contribution_moves(tokens, self.c());
            }
            let item = match self.parse_contribution() {
                Err(error) => return Err(error),
                Ok(block) => block,
            };
            proof {
                views_push(found@, item);
            }
            found.push(item);
        }
    }

    fn parse_record_body(&mut self, leading: Vec<Comment>) -> (read: Result<RecordBody, ParseError>)
        requires
            old(self).valid(),
        ensures
            match read {
                Ok(found) => record_body(old(self).t(), old(self).c(), views(leading@)) matches Ok((model, cursor)) && model == found@ && cursor
                    == final(self).c() && final(self).follows(*old(self)),
                Err(error) => record_body(old(self).t(), old(self).c(), views(leading@)) matches Err(wrong) && wrong == error@,
            },
    {
        match self.expect(TokenKind::LeftBrace, "`{` to open a record block") {
            Err(error) => return Err(error),
            Ok(_) => {}
        }
        let comments = self.take_remarks(leading);
        let properties = match self.parse_properties() {
            Err(error) => return Err(error),
            Ok(found) => found,
        };
        let contributions = match self.parse_contributions() {
            Err(error) => return Err(error),
            Ok(found) => found,
        };
        let left = self.take_pending();
        match self.expect(TokenKind::RightBrace, "`}` to close a record block") {
            Err(error) => return Err(error),
            Ok(_) => {}
        }
        let hollow = properties.len() == 0 && contributions.len() == 0;
        let (comments, block_comments) = self.take_closing(comments, hollow, left);
        Ok(
            RecordBody {
                properties,
                contributions,
                comments,
                block_comments,
            },
        )
    }

    fn parse_field_type(&mut self) -> (read: Result<Spanned<FieldType>, ParseError>)
        requires
            old(self).valid(),
        ensures
            match read {
                Ok(found) => field_type(old(self).t(), old(self).c()) matches Ok((model, cursor)) && model == found@ && cursor
                    == final(self).c() && final(self).follows(*old(self)),
                Err(error) => field_type(old(self).t(), old(self).c()) matches Err(wrong) && wrong == error@,
            },
    {
        self.skip_trivia();
        let range = self.range();
        let text = if self.kind() == TokenKind::Identifier {
            self.tokens[self.index].text.clone()
        } else if self.kind() == TokenKind::Keyword(Keyword::Bytes) {
            "bytes".to_owned()
        } else if self.kind() == TokenKind::Keyword(Keyword::Datetime) {
            "datetime".to_owned()
        } else {
            return Err(self.error("expected a field type"));
        };
        let scalar = match ScalarType::from_text(text.as_str()) {
            Some(found) => found,
            None => {
                let mut message = joined("`", text.as_str());
                message.append(
                    "` is not a field type; expected boolean, integer, double, string, bytes, or datetime, optionally followed by `[]`",
                );
                return Err(self.error(message.as_str()));
            }
        };
        self.bump();
        if self.kind() != TokenKind::LeftBracket {
            return Ok(Spanned { value: FieldType { scalar, array: false }, range });
        }
        self.bump();
        let close = match self.expect(TokenKind::RightBracket, "`]` to close an array type") {
            Err(error) => return Err(error),
            Ok(found) => found,
        };
        if self.stands_next(TokenKind::LeftBracket) {
            self.skip_trivia();
            return Err(self.error("an array does not nest, so `[][]` is not a field type"));
        }
        Ok(
            Spanned {
                value: FieldType { scalar, array: true },
                range: SourceRange::new_or(range.start(), close.range.end(), range),
            },
        )
    }

    fn parse_schema_field(&mut self) -> (read: Result<(SchemaField, bool), ParseError>)
        requires
            old(self).valid(),
        ensures
            match read {
                Ok(found) => schema_field(old(self).t(), old(self).c()) matches Ok((model, cursor))
                    && model == (found.0@, found.1) && cursor == final(self).c() && final(self).follows(*old(self)),
                Err(error) => schema_field(old(self).t(), old(self).c()) matches Err(wrong) && wrong
                    == error@,
            },
    {
        let leading = self.take_pending();
        let key = match self.expect_identifier("a field key") {
            Err(error) => return Err(error),
            Ok(found) => found,
        };
        let optional = self.eat(TokenKind::Question);
        match self.expect(TokenKind::Colon, "`:` after a field key") {
            Err(error) => return Err(error),
            Ok(_) => {}
        }
        let field_type = match self.parse_field_type() {
            Err(error) => return Err(error),
            Ok(found) => found,
        };
        let (separated, comments) = self.finish_entry(leading);
        Ok(
            (
                SchemaField { key, optional, field_type, comments },
                separated,
            ),
        )
    }

    fn parse_schema_fields(&mut self) -> (read: Result<Vec<SchemaField>, ParseError>)
        requires
            old(self).valid(),
        ensures
            match read {
                Ok(items) => schema_fields(old(self).t(), old(self).c(), Seq::empty()) matches Ok((model, cursor))
                    && model == views(items@) && cursor == final(self).c() && final(self).follows(*old(self)),
                Err(error) => schema_fields(old(self).t(), old(self).c(), Seq::empty()) matches Err(wrong)
                    && wrong == error@,
            },
    {
        let ghost tokens = self.t();
        let ghost first = self.c();
        let mut found: Vec<SchemaField> = Vec::new();
        assert(views(found@) =~= Seq::<SchemaFieldModel>::empty());
        loop
            invariant
                self.valid(),
                self.t() == tokens,
                old(self).t() == tokens,
                old(self).c() == first,
                schema_fields(tokens, first, Seq::empty()) == schema_fields(
                    tokens,
                    self.c(),
                    views(found@),
                ),
            decreases tokens.len() - self.index,
        {
            proof {
                skip_moves(tokens, self.c());
            }
            self.skip_trivia();
            if !self.at_name() {
                return Ok(found);
            }
            proof {
                schema_field_moves(tokens, self.c());
            }
            let (item, separated) = match self.parse_schema_field() {
                Err(error) => return Err(error),
                Ok(pair) => pair,
            };
            proof {
                views_push(found@, item);
            }
            found.push(item);
            if !separated {
                return Ok(found);
            }
        }
    }

    fn parse_constraint(&mut self) -> (read: Result<Option<EndpointConstraint>, ParseError>)
        requires
            old(self).valid(),
        ensures
            match read {
                Ok(found) => constraint(old(self).t(), old(self).c()) matches Ok((model, cursor))
                    && model == view_of(found) && cursor == final(self).c() && final(self).follows(
                    *old(self),
                ),
                Err(error) => constraint(old(self).t(), old(self).c()) matches Err(wrong) && wrong
                    == error@,
            },
    {
        self.skip_trivia();
        if self.kind() != TokenKind::LeftParen {
            return Ok(None);
        }
        self.bump();
        let source = match self.expect_identifier("the source schema name") {
            Err(error) => return Err(error),
            Ok(found) => found,
        };
        match self.expect(TokenKind::Arrow, "`->` between the endpoint schemas") {
            Err(error) => return Err(error),
            Ok(_) => {}
        }
        let target = match self.expect_identifier("the target schema name") {
            Err(error) => return Err(error),
            Ok(found) => found,
        };
        match self.expect(TokenKind::RightParen, "`)` after the endpoint schemas") {
            Err(error) => return Err(error),
            Ok(_) => {}
        }
        Ok(Some(EndpointConstraint { source, target }))
    }

    fn parse_schema(&mut self) -> (read: Result<SchemaDeclaration, ParseError>)
        requires
            old(self).valid(),
        ensures
            match read {
                Ok(found) => schema(old(self).t(), old(self).c()) matches Ok((model, cursor)) && model == found@ && cursor
                    == final(self).c() && final(self).follows(*old(self)),
                Err(error) => schema(old(self).t(), old(self).c()) matches Err(wrong) && wrong == error@,
            },
    {
        let leading = self.take_pending();
        match self.expect(TokenKind::Keyword(Keyword::Schema), "`schema`") {
            Err(error) => return Err(error),
            Ok(_) => {}
        }
        let name = match self.expect_identifier("a schema name") {
            Err(error) => return Err(error),
            Ok(found) => found,
        };
        let endpoints = match self.parse_constraint() {
            Err(error) => return Err(error),
            Ok(found) => found,
        };
        match self.expect(TokenKind::LeftBrace, "`{` to open a field block") {
            Err(error) => return Err(error),
            Ok(_) => {}
        }
        let comments = self.take_remarks(leading);
        let fields = match self.parse_schema_fields() {
            Err(error) => return Err(error),
            Ok(found) => found,
        };
        let left = self.take_pending();
        match self.expect(TokenKind::RightBrace, "`}` to close a field block") {
            Err(error) => return Err(error),
            Ok(_) => {}
        }
        let hollow = fields.len() == 0;
        let (comments, block_comments) = self.take_closing(comments, hollow, left);
        Ok(
            SchemaDeclaration {
                name,
                endpoints,
                fields,
                comments,
                block_comments,
            },
        )
    }

    fn parse_schema_names(&mut self, first_name: Spanned<String>) -> (read: Result<
        Vec<Spanned<String>>,
        ParseError,
    >)
        requires
            old(self).valid(),
        ensures
            match read {
                Ok(found) => more_schemas(
                    old(self).t(),
                    old(self).c(),
                    seq![first_name@],
                ) matches Ok((model, cursor)) && model == views(found@) && cursor == final(self).c()
                    && final(self).follows(*old(self)),
                Err(error) => more_schemas(
                    old(self).t(),
                    old(self).c(),
                    seq![first_name@],
                ) matches Err(wrong) && wrong == error@,
            },
    {
        let ghost tokens = self.t();
        let ghost first = self.c();
        let ghost head = first_name@;
        let mut found: Vec<Spanned<String>> = Vec::new();
        found.push(first_name);
        assert(views(found@) =~= seq![head]);
        loop
            invariant
                self.valid(),
                self.t() == tokens,
                old(self).t() == tokens,
                old(self).c() == first,
                head == first_name@,
                more_schemas(tokens, first, seq![head]) == more_schemas(
                    tokens,
                    self.c(),
                    views(found@),
                ),
            decreases tokens.len() - self.index,
        {
            proof {
                skip_moves(tokens, self.c());
            }
            if !self.eat(TokenKind::Comma) {
                return Ok(found);
            }
            proof {
                identifier_moves(tokens, self.c(), "a schema name"@);
            }
            let item = match self.expect_identifier("a schema name") {
                Err(error) => return Err(error),
                Ok(name) => name,
            };
            proof {
                views_push(found@, item);
            }
            found.push(item);
        }
    }

    fn parse_node(&mut self) -> (read: Result<NodeDeclaration, ParseError>)
        requires
            old(self).valid(),
        ensures
            match read {
                Ok(found) => node(old(self).t(), old(self).c()) matches Ok((model, cursor)) && model == found@ && cursor
                    == final(self).c() && final(self).follows(*old(self)),
                Err(error) => node(old(self).t(), old(self).c()) matches Err(wrong) && wrong == error@,
            },
    {
        let leading = self.take_pending();
        match self.expect(TokenKind::Keyword(Keyword::Node), "`node`") {
            Err(error) => return Err(error),
            Ok(_) => {}
        }
        let name = match self.expect_identifier("a node name") {
            Err(error) => return Err(error),
            Ok(found) => found,
        };
        match self.expect(TokenKind::Colon, "`:` before the schema names") {
            Err(error) => return Err(error),
            Ok(_) => {}
        }
        let first = match self.expect_identifier("a schema name") {
            Err(error) => return Err(error),
            Ok(found) => found,
        };
        let schemas = match self.parse_schema_names(first) {
            Err(error) => return Err(error),
            Ok(found) => found,
        };
        let record = match self.parse_record_body(leading) {
            Err(error) => return Err(error),
            Ok(found) => found,
        };
        Ok(NodeDeclaration { name, schemas, record })
    }

    fn parse_edge(&mut self) -> (read: Result<EdgeDeclaration, ParseError>)
        requires
            old(self).valid(),
        ensures
            match read {
                Ok(found) => edge(old(self).t(), old(self).c()) matches Ok((model, cursor)) && model == found@ && cursor
                    == final(self).c() && final(self).follows(*old(self)),
                Err(error) => edge(old(self).t(), old(self).c()) matches Err(wrong) && wrong == error@,
            },
    {
        let leading = self.take_pending();
        match self.expect(TokenKind::Keyword(Keyword::Edge), "`edge`") {
            Err(error) => return Err(error),
            Ok(_) => {}
        }
        let source = match self.parse_endpoint() {
            Err(error) => return Err(error),
            Ok(found) => found,
        };
        match self.expect(TokenKind::Arrow, "`->` between the endpoints") {
            Err(error) => return Err(error),
            Ok(_) => {}
        }
        let target = match self.parse_endpoint() {
            Err(error) => return Err(error),
            Ok(found) => found,
        };
        match self.expect(TokenKind::Colon, "`:` before a relation name") {
            Err(error) => return Err(error),
            Ok(_) => {}
        }
        let relation = match self.expect_identifier("a relation name") {
            Err(error) => return Err(error),
            Ok(found) => found,
        };
        let record = match self.parse_record_body(leading) {
            Err(error) => return Err(error),
            Ok(found) => found,
        };
        Ok(EdgeDeclaration { source, target, relation, record })
    }

    fn parse_link(&mut self) -> (read: Result<LinkDeclaration, ParseError>)
        requires
            old(self).valid(),
            kind(old(self).t(), old(self).c()) == TokenKind::LinkDirective,
        ensures
            match read {
                Ok(value) => link(old(self).t(), old(self).c()) matches Ok((model, cursor)) && model
                    == value@ && cursor == final(self).c() && final(self).follows(*old(self)),
                Err(error) => link(old(self).t(), old(self).c()) matches Err(wrong) && wrong
                    == error@,
            },
    {
        let leading = self.take_pending();
        self.bump();
        let source = match self.expect_string("a quoted link locator") {
            Err(error) => return Err(error),
            Ok(found) => found,
        };
        let alias = if self.stands_next(TokenKind::Keyword(Keyword::As)) {
            self.skip_trivia();
            self.bump();
            match self.expect_identifier("a link alias") {
                Err(error) => return Err(error),
                Ok(found) => Some(found),
            }
        } else {
            None
        };
        let comments = self.take_remarks(leading);
        Ok(LinkDeclaration { source, alias, comments })
    }

    fn parse_links(&mut self) -> (read: Result<Vec<LinkDeclaration>, ParseError>)
        requires
            old(self).valid(),
        ensures
            match read {
                Ok(items) => links(old(self).t(), old(self).c(), Seq::empty()) matches Ok((model, cursor))
                    && model == views(items@) && cursor == final(self).c() && final(self).follows(*old(self)),
                Err(error) => links(old(self).t(), old(self).c(), Seq::empty()) matches Err(wrong)
                    && wrong == error@,
            },
    {
        let ghost tokens = self.t();
        let ghost first = self.c();
        let mut found: Vec<LinkDeclaration> = Vec::new();
        assert(views(found@) =~= Seq::<LinkDeclarationModel>::empty());
        loop
            invariant
                self.valid(),
                self.t() == tokens,
                old(self).t() == tokens,
                old(self).c() == first,
                links(tokens, first, Seq::empty()) == links(tokens, self.c(), views(found@)),
            decreases tokens.len() - self.index,
        {
            proof {
                skip_moves(tokens, self.c());
            }
            self.skip_trivia();
            if self.kind() != TokenKind::LinkDirective {
                return Ok(found);
            }
            proof {
                link_moves(tokens, self.c());
            }
            let item = match self.parse_link() {
                Err(error) => return Err(error),
                Ok(declaration) => declaration,
            };
            proof {
                views_push(found@, item);
            }
            found.push(item);
        }
    }

    fn parse_header(&mut self) -> (read: Result<(Spanned<u32>, Comments), ParseError>)
        requires
            old(self).valid(),
            old(self).index == 0,
            old(self).c().pending == Seq::<CommentModel>::empty(),
        ensures
            match read {
                Ok(found) => header(old(self).t()) matches Ok((model, cursor)) && model == (
                    found.0,
                    found.1@,
                ) && cursor == final(self).c() && final(self).follows(*old(self)),
                Err(error) => header(old(self).t()) matches Err(wrong) && wrong == error@,
            },
    {
        self.skip_trivia();
        let leading = self.take_pending();
        match self.expect(TokenKind::NostDirective, "`@nost` as the first declaration") {
            Err(error) => return Err(error),
            Ok(_) => {}
        }
        let number = match self.expect(TokenKind::IntegerLiteral, "a language version number") {
            Err(error) => return Err(error),
            Ok(found) => found,
        };
        match parse_unsigned(number.text.as_str(), u32::MAX as u64) {
            None => Err(
                ParseError {
                    message: "the language version must be a non-negative whole number".to_owned(),
                    range: number.range,
                },
            ),
            Some(version) => {
                let comments = self.take_remarks(leading);
                Ok(
                    (
                        Spanned { value: version as u32, range: number.range },
                        comments,
                    ),
                )
            }
        }
    }
}

/// The declarations read so far.
struct Collected {
    schemas: Vec<SchemaDeclaration>,
    nodes: Vec<NodeDeclaration>,
    edges: Vec<EdgeDeclaration>,
    order: Vec<DeclarationRef>,
}

impl Collected {
    spec fn model(&self) -> Declarations {
        Declarations {
            schemas: views(self.schemas@),
            nodes: views(self.nodes@),
            edges: views(self.edges@),
            order: self.order@,
        }
    }

    /// Whether every entry of the order points at a declaration that was read.
    spec fn ordered(&self) -> bool {
        forall|i: int|
            0 <= i < self.order@.len() ==> match #[trigger] self.order@[i] {
                DeclarationRef::Schema(index) => index < self.schemas@.len(),
                DeclarationRef::Node(index) => index < self.nodes@.len(),
                DeclarationRef::Edge(index) => index < self.edges@.len(),
            }
    }
}

impl Parser {
    fn parse_declarations(&mut self) -> (read: Result<Collected, ParseError>)
        requires
            old(self).valid(),
        ensures
            match read {
                Ok(found) => declarations(
                    old(self).t(),
                    old(self).c(),
                    Declarations {
                        schemas: Seq::empty(),
                        nodes: Seq::empty(),
                        edges: Seq::empty(),
                        order: Seq::empty(),
                    },
                ) matches Ok((model, cursor)) && model == found.model() && cursor == final(self).c()
                    && final(self).follows(*old(self)) && found.ordered(),
                Err(error) => declarations(
                    old(self).t(),
                    old(self).c(),
                    Declarations {
                        schemas: Seq::empty(),
                        nodes: Seq::empty(),
                        edges: Seq::empty(),
                        order: Seq::empty(),
                    },
                ) matches Err(wrong) && wrong == error@,
            },
    {
        let ghost tokens = self.t();
        let ghost first = self.c();
        let ghost none = Declarations {
            schemas: Seq::empty(),
            nodes: Seq::empty(),
            edges: Seq::empty(),
            order: Seq::empty(),
        };
        let mut found = Collected {
            schemas: Vec::new(),
            nodes: Vec::new(),
            edges: Vec::new(),
            order: Vec::new(),
        };
        proof {
            assert(found.model().schemas =~= none.schemas);
            assert(found.model().nodes =~= none.nodes);
            assert(found.model().edges =~= none.edges);
            assert(found.model().order =~= none.order);
        }
        loop
            invariant
                self.valid(),
                self.t() == tokens,
                old(self).t() == tokens,
                old(self).c() == first,
                none == (Declarations {
                    schemas: Seq::empty(),
                    nodes: Seq::empty(),
                    edges: Seq::empty(),
                    order: Seq::empty(),
                }),
                declarations(tokens, first, none) == declarations(tokens, self.c(), found.model()),
                found.ordered(),
            decreases tokens.len() - self.index,
        {
            proof {
                skip_moves(tokens, self.c());
            }
            self.skip_trivia();
            proof {
                schema_moves(tokens, self.c());
                node_moves(tokens, self.c());
                edge_moves(tokens, self.c());
            }
            let ghost before = found.model();
            match self.kind() {
                TokenKind::Keyword(Keyword::Schema) => {
                    let item = match self.parse_schema() {
                        Err(error) => return Err(error),
                        Ok(declaration) => declaration,
                    };
                    proof {
                        views_push(found.schemas@, item);
                    }
                    found.order.push(DeclarationRef::Schema(found.schemas.len()));
                    found.schemas.push(item);
                    assert(found.model().order =~= before.order.push(
                        DeclarationRef::Schema(before.schemas.len() as usize),
                    ));
                }
                TokenKind::Keyword(Keyword::Node) => {
                    let item = match self.parse_node() {
                        Err(error) => return Err(error),
                        Ok(declaration) => declaration,
                    };
                    proof {
                        views_push(found.nodes@, item);
                    }
                    found.order.push(DeclarationRef::Node(found.nodes.len()));
                    found.nodes.push(item);
                    assert(found.model().order =~= before.order.push(
                        DeclarationRef::Node(before.nodes.len() as usize),
                    ));
                }
                TokenKind::Keyword(Keyword::Edge) => {
                    let item = match self.parse_edge() {
                        Err(error) => return Err(error),
                        Ok(declaration) => declaration,
                    };
                    proof {
                        views_push(found.edges@, item);
                    }
                    found.order.push(DeclarationRef::Edge(found.edges.len()));
                    found.edges.push(item);
                    assert(found.model().order =~= before.order.push(
                        DeclarationRef::Edge(before.edges.len() as usize),
                    ));
                }
                _ => {
                    return Ok(found);
                }
            }
        }
    }
}

/// The last token of a source is the end of input.
pub proof fn tokens_end(source: Seq<char>, at: int, own_line: bool, before: Seq<TokenModel>)
    requires
        0 <= at <= source.len(),
    ensures
        lexed(source, at, own_line, before) matches Ok(tokens) ==> tokens.len() > 0
            && tokens.last().kind == TokenKind::Eof,
    decreases source.len() - at,
{
    if at < source.len() {
        pieces_are_bounded(source, at);
        match piece_at(source, at) {
            Ok(found) => {
                tokens_end(
                    source,
                    found.next,
                    starts_line(source, at, found, own_line),
                    before.push(token_of(source, at, found, own_line)),
                );
            }
            Err(_) => {}
        }
    }
}

/// Parses a `.nost` file into a comment-preserving tree.
///
/// This reports syntax only. A file that parses may still break a semantic rule; see
/// [`super::validate`]. In particular an unsupported language version parses, because
/// refusing it is a semantic decision that needs the version's value.
///
/// An error carries a source range for any input the grammar does not accept, including a
/// byte-order mark, a link declaration after a record declaration, a reserved word where a
/// name is required, an unknown field type, and a nested or trailing-comma list.
///
/// Every entry of the order of a file that was read points at one of its declarations.
pub fn parse(source: &str) -> (read: Result<SourceFile, ParseError>)
    requires
        countable(source@),
    ensures
        match read {
            Ok(file) => parsed(source@) matches Ok(model) && model == file@ && file@.ordered()
                && few_enough(file@),
            Err(error) => parsed(source@) matches Err(wrong) && wrong == error@,
        },
{
    let tokens = match tokenize(source) {
        Err(error) => return Err(error),
        Ok(found) => found,
    };
    proof {
        tokens_end(source@, 0, true, Seq::empty());
        assert(views(tokens@).last() == tokens@.last()@);
    }
    let mut parser = Parser { tokens, index: 0, pending: Vec::new() };
    assert(parser.c().pending =~= Seq::<CommentModel>::empty());
    let ghost all = parser.t();
    let (version, version_comments) = match parser.parse_header() {
        Err(error) => return Err(error),
        Ok(found) => found,
    };
    let links = match parser.parse_links() {
        Err(error) => return Err(error),
        Ok(found) => found,
    };
    let found = match parser.parse_declarations() {
        Err(error) => return Err(error),
        Ok(declarations) => declarations,
    };
    parser.skip_trivia();
    if parser.kind() != TokenKind::Eof {
        if parser.kind() == TokenKind::LinkDirective {
            return Err(
                parser.error(
                    "a link declaration must come before every schema, node, and edge declaration",
                ),
            );
        }
        return Err(parser.error("expected `schema`, `node`, `edge`, or the end of the file"));
    }
    let trailing_comments = parser.take_pending();
    assert(found.schemas.len() <= usize::MAX && found.nodes.len() <= usize::MAX
        && found.edges.len() <= usize::MAX);
    Ok(
        SourceFile {
            version,
            version_comments,
            links,
            schemas: found.schemas,
            nodes: found.nodes,
            edges: found.edges,
            order: found.order,
            trailing_comments,
        },
    )
}

} // verus!
