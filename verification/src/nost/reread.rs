//! A formatted file is read back as it was, and formatted the same again.

use super::parser::comment_of;
use super::parser::eaten;
use super::parser::closed;
use super::parser::entry_end;
use super::parser::expected;
use super::parser::here;
use super::parser::identifier;
use super::parser::is_comment;
use super::parser::kind;
use super::parser::names;
use super::parser::quoted;
use super::parser::skip;
use super::parser::step;
use super::parser::taken;
use super::parser::remarked;
use super::parser::trailing;
use super::parser::trailing_at;
use super::parser::Cursor;
use super::lexer::Keyword;
use super::lexer::TokenKind;
use super::lexer::TokenModel;
use super::lexer::TriviaKind;
use super::parts::broken;
use super::parts::entry_parts;
use super::parts::indented;
use super::parts::leading_parts;
use super::parts::remark;
use super::parts::sign;
use super::parts::spaced;
use super::parts::trailing_parts;
use super::written::behind;
use super::written::comment_kind;
use super::written::past_white;
use super::written::spell;
use super::written::word_kind;
use super::written::Parts;
use super::optional_comment;
use super::CommentModel;
use super::CommentsModel;
use super::Spanned;
use super::format::integer_text;
use super::format::float_text;
use super::lexer::hex_bytes;
use super::parser::scalar;
use super::parser::scalars;
use super::parser::scalar_moves;
use super::parser::skip_moves;
use super::parser::value;
use super::parser::property;
use super::parser::properties;
use super::parser::property_moves;
use super::parts::scalar_parts;
use super::parts::items_parts;
use super::parts::value_parts;
use super::parts::word;
use super::parts::writable_scalar;
use super::parts::writable_value;
use super::format::shown_value;
use super::parts::shown_is_writable;
use super::parts::writable_property;
use super::parts::properties_parts;
use super::PropertyModel;
use super::ValueModel;
use crate::decimal::lowered;
use super::EvidenceBlockModel;
use super::EvidenceField;
use super::EvidenceFieldModel;
use super::EvidenceValueModel;
use super::parts::close_parts;
use super::parts::closing_parts;
use super::parts::directive;
use super::parser::evidence;
use super::parser::evidence_blocks;
use super::parts::evidence_blocks_parts;
use super::parser::evidence_field;
use super::parser::evidence_field_moves;
use super::parser::evidence_fields;
use super::parts::evidence_fields_parts;
use super::format::evidence_is_empty;
use super::parser::evidence_moves;
use super::parser::evidence_value;
use super::parts::evidence_value_parts;
use super::parts::hollow_parts;
use super::parts::number;
use super::parts::open_parts;
use super::parts::score_kind;
use crate::order::sorted;
use super::parts::sorted_all;
use crate::order::sorted_length;
use super::parts::writable_evidence;
use super::parts::writable_evidence_block;
use super::parts::writable_evidence_field;
use super::ContributionBlock;
use super::ContributionBlockModel;
use super::OwnerDeclarationModel;
use super::Property;
use super::RecordBodyModel;
use super::lexer::Token;
use super::parser::contribution;
use super::parts::contribution_braces;
use super::format::contribution_is_empty;
use super::parser::contribution_moves;
use super::parts::contribution_parts;
use super::parser::contributions;
use super::parts::contributions_parts;
use super::parser::owner;
use super::parts::owner_parts;
use super::parts::quote;
use super::parser::record_body;
use super::format::record_is_empty;
use super::parts::record_parts;
use super::parser::unit;
use super::parts::unit_parts;
use super::parts::writable_contribution;
use super::parts::writable_record;
use super::EdgeDeclarationModel;
use super::EndpointConstraintModel;
use super::EndpointModel;
use crate::schema::FieldType;
use super::LinkDeclarationModel;
use super::NodeDeclarationModel;
use super::SchemaDeclarationModel;
use super::SchemaField;
use super::SchemaFieldModel;
use super::parts::alias_parts;
use super::parser::constraint;
use super::parts::constraint_parts;
use super::parser::edge;
use super::parser::endpoint;
use super::parts::endpoint_parts;
use super::parts::field_parts;
use super::parser::field_type;
use super::parts::fields_parts;
use super::written::gap_of;
use super::parser::identifier_moves;
use super::parser::link;
use super::parser::more_schemas;
use super::parts::nameable;
use super::parts::names_parts;
use super::parser::node;
use super::parts::optional_parts;
use super::parser::schema;
use super::parts::schema_braces;
use super::parser::schema_field;
use super::parser::schema_field_moves;
use super::parser::schema_fields;
use super::format::schema_is_empty;
use super::parts::type_parts;
use super::parser::type_word;
use super::parts::writable_edge;
use super::parts::writable_endpoint;
use super::parts::writable_field;
use super::parts::writable_link;
use super::parts::writable_node;
use super::parts::writable_schema;
use super::parser::Declarations;
use super::EdgeDeclaration;
use super::LinkDeclaration;
use super::NodeDeclaration;
use super::SchemaDeclaration;
use super::SourceFileModel;
use super::parser::declarations;
use super::parts::declarations_parts;
use crate::number::digits_of;
use crate::number::digits_read_unsigned;
use super::parser::edge_moves;
use super::parts::edge_parts;
use super::parts::edges_parts;
use super::parts::file_is_written;
use super::parts::file_parts;
use super::format::formatted;
use super::parser::header;
use super::parts::header_parts;
use super::parts::link_group_parts;
use super::parser::link_moves;
use super::parser::links;
use super::parts::links_parts;
use super::parser::node_moves;
use super::parts::node_parts;
use super::parts::nodes_parts;
use super::parser::parsed;
use super::written::parts_are_lexed;
use super::parser::schema_moves;
use super::parts::schema_parts;
use super::parts::schemas_parts;
use super::lexer::tokens_of;
use super::parts::writable;
use vstd::prelude::*;

verus! {

// -- Sameness ----------------------------------------------------------------------

/// Whether two comments say the same.
pub open spec fn same_comment(read: CommentModel, wrote: CommentModel) -> bool {
    read.text == wrote.text && read.block == wrote.block
}

/// Whether two lists of comments say the same.
pub open spec fn same_list(read: Seq<CommentModel>, wrote: Seq<CommentModel>) -> bool {
    read.len() == wrote.len() && forall|i: int|
        0 <= i < read.len() ==> same_comment(#[trigger] read[i], wrote[i])
}

/// Whether two comments that may be there say the same.
pub open spec fn same_optional(read: Option<CommentModel>, wrote: Option<CommentModel>) -> bool {
    match (read, wrote) {
        (Some(one), Some(other)) => same_comment(one, other),
        (None, None) => true,
        _ => false,
    }
}

/// Whether the comments of two constructs say the same.
pub open spec fn same_remarks(read: CommentsModel, wrote: CommentsModel) -> bool {
    same_list(read.leading, wrote.leading) && same_optional(read.trailing, wrote.trailing)
}

// -- Tokens ------------------------------------------------------------------------

proof fn past_white_twice(tokens: Seq<TokenModel>, index: int)
    ensures
        past_white(tokens, past_white(tokens, index)) == past_white(tokens, index),
        index <= past_white(tokens, index),
    decreases tokens.len() - index,
{
    if 0 <= index < tokens.len() && tokens[index].kind == TokenKind::Trivia(TriviaKind::Whitespace) {
        past_white_twice(tokens, index + 1);
    }
}

proof fn skip_past_white(tokens: Seq<TokenModel>, cursor: Cursor)
    requires
        0 <= cursor.index,
    ensures
        skip(tokens, cursor) == skip(
            tokens,
            Cursor { index: past_white(tokens, cursor.index), pending: cursor.pending },
        ),
    decreases tokens.len() - cursor.index,
{
    if cursor.index < tokens.len() && tokens[cursor.index].kind == TokenKind::Trivia(
        TriviaKind::Whitespace,
    ) {
        skip_past_white(tokens, step(cursor));
    }
}

/// Skipping trivia twice is skipping it once.
pub proof fn skip_twice(tokens: Seq<TokenModel>, cursor: Cursor)
    ensures
        skip(tokens, skip(tokens, cursor)) == skip(tokens, cursor),
    decreases tokens.len() - cursor.index,
{
    if 0 <= cursor.index < tokens.len() {
        if kind(tokens, cursor) == TokenKind::Trivia(TriviaKind::Whitespace) {
            skip_twice(tokens, step(cursor));
        } else if is_comment(here(tokens, cursor)) {
            skip_twice(
                tokens,
                Cursor {
                    index: cursor.index + 1,
                    pending: cursor.pending.push(comment_of(here(tokens, cursor))),
                },
            );
        }
    }
}

/// The parts are spelled from behind the white space too.
proof fn spell_past_white(tokens: Seq<TokenModel>, index: int, own: bool, parts: Parts)
    requires
        spell(tokens, index, own, parts),
    ensures
        spell(tokens, past_white(tokens, index), own, parts),
{
    past_white_twice(tokens, index);
}

/// What a cursor in front of a token finds.
proof fn token_found(tokens: Seq<TokenModel>, cursor: Cursor, own: bool, parts: Parts)
    requires
        spell(tokens, cursor.index, own, parts),
        parts is Token,
        !(parts->kind is Trivia),
    ensures
        ({
            let at = skip(tokens, cursor);
            &&& at == Cursor { index: past_white(tokens, cursor.index), pending: cursor.pending }
            &&& kind(tokens, at) == parts->kind
            &&& here(tokens, at).kind == parts->kind
            &&& here(tokens, at).text == parts->text
            &&& here(tokens, at).bytes == parts->bytes
            &&& spell(tokens, at.index, own, parts)
            &&& spell(tokens, at.index + 1, false, *parts->rest)
        }),
{
    spell_past_white(tokens, cursor.index, own, parts);
    skip_past_white(tokens, cursor);
}

/// What a cursor at the end finds.
proof fn end_found(tokens: Seq<TokenModel>, cursor: Cursor, own: bool, parts: Parts)
    requires
        spell(tokens, cursor.index, own, parts),
        parts is End,
    ensures
        ({
            let at = skip(tokens, cursor);
            &&& at == Cursor { index: past_white(tokens, cursor.index), pending: cursor.pending }
            &&& kind(tokens, at) == TokenKind::Eof
        }),
{
    skip_past_white(tokens, cursor);
}

/// White space in front of white space is white space.
proof fn behind_twice(first: Seq<char>, second: Seq<char>, parts: Parts)
    ensures
        behind(first, behind(second, parts)) == behind(first + second, parts),
{
    match parts {
        Parts::End { gap } => {
            assert(first + (second + gap) =~= (first + second) + gap);
        },
        Parts::Token { gap, .. } => {
            assert(first + (second + gap) =~= (first + second) + gap);
        },
    }
}

/// Nothing in front of parts leaves them as they are.
proof fn behind_nothing(parts: Parts)
    ensures
        behind(Seq::empty(), parts) == parts,
{
    match parts {
        Parts::End { gap } => {
            assert(Seq::<char>::empty() + gap =~= gap);
        },
        Parts::Token { gap, .. } => {
            assert(Seq::<char>::empty() + gap =~= gap);
        },
    }
}

/// The white space in front of a token that is no comment does not matter.
proof fn spell_anywhere(tokens: Seq<TokenModel>, index: int, own: bool, gap: Seq<char>, parts: Parts)
    requires
        spell(tokens, index, own, behind(gap, parts)),
        parts is Token ==> !(parts->kind is Trivia),
    ensures
        spell(tokens, index, false, parts),
{
}

/// What stands first among parts that is no comment.
pub open spec fn first_kind(parts: Parts) -> TokenKind
    decreases parts,
{
    match parts {
        Parts::End { .. } => TokenKind::Eof,
        Parts::Token { kind, rest, .. } => if kind is Trivia {
            first_kind(*rest)
        } else {
            kind
        },
    }
}

proof fn first_found(tokens: Seq<TokenModel>, cursor: Cursor, own: bool, parts: Parts)
    requires
        spell(tokens, cursor.index, own, parts),
    ensures
        kind(tokens, skip(tokens, cursor)) == first_kind(parts),
    decreases parts,
{
    match parts {
        Parts::End { .. } => {
            end_found(tokens, cursor, own, parts);
        },
        Parts::Token { kind, rest, .. } => if kind is Trivia {
            skip_past_white(tokens, cursor);
            spell_past_white(tokens, cursor.index, own, parts);
            let at = Cursor { index: past_white(tokens, cursor.index), pending: cursor.pending };
            first_found(
                tokens,
                Cursor {
                    index: at.index + 1,
                    pending: at.pending.push(comment_of(here(tokens, at))),
                },
                false,
                *rest,
            );
        } else {
            token_found(tokens, cursor, own, parts);
        },
    }
}

proof fn first_behind(gap: Seq<char>, parts: Parts)
    ensures
        first_kind(behind(gap, parts)) == first_kind(parts),
{
}

// -- Comments ----------------------------------------------------------------------

/// The comments that lead a construct are read as pending. The construct starts at the
/// index that comes back.
proof fn leading_read(
    tokens: Seq<TokenModel>,
    cursor: Cursor,
    own: bool,
    gap: Seq<char>,
    depth: nat,
    comments: Seq<CommentModel>,
    from: int,
    rest: Parts,
) -> (out: (int, Seq<CommentModel>))
    requires
        0 <= from <= comments.len(),
        spell(tokens, cursor.index, own, behind(gap, leading_parts(depth, comments, from, rest))),
        rest is Token ==> !(rest->kind is Trivia),
    ensures
        spell(tokens, out.0, false, rest),
        same_list(out.1, comments.subrange(from, comments.len() as int)),
        skip(tokens, cursor) == skip(
            tokens,
            Cursor { index: out.0, pending: cursor.pending + out.1 },
        ),
    decreases comments.len() - from,
{
    let parts = behind(gap, leading_parts(depth, comments, from, rest));
    if from == comments.len() {
        spell_anywhere(tokens, cursor.index, own, gap, rest);
        assert(cursor.pending + Seq::<CommentModel>::empty() =~= cursor.pending);
        assert(cursor == Cursor { index: cursor.index, pending: cursor.pending });
        (cursor.index, Seq::empty())
    } else {
        let comment = comments[from];
        let more = leading_parts(depth, comments, from + 1, rest);
        skip_past_white(tokens, cursor);
        let at = past_white(tokens, cursor.index);
        assert(spell(tokens, at + 1, false, broken(more)));
        assert(tokens[at].kind == comment_kind(comment));
        let found = comment_of(tokens[at]);
        let next = Cursor { index: at + 1, pending: cursor.pending.push(found) };
        assert(is_comment(tokens[at]));
        assert(skip(tokens, cursor) == skip(tokens, next));
        let (index, read) = leading_read(
            tokens,
            next,
            false,
            seq!['\n'],
            depth,
            comments,
            from + 1,
            rest,
        );
        let all = seq![found] + read;
        assert(next.pending + read =~= cursor.pending + all);
        let wanted = comments.subrange(from, comments.len() as int);
        let later = comments.subrange(from + 1, comments.len() as int);
        assert forall|i: int| 0 <= i < all.len() implies same_comment(#[trigger] all[i], wanted[i]) by {
            if i > 0 {
                assert(all[i] == read[i - 1]);
                assert(wanted[i] == later[i - 1]);
            }
        }
        (index, all)
    }
}

/// The comment that trails a line is read as that, and nothing else is.
proof fn trailing_read(tokens: Seq<TokenModel>, cursor: Cursor, comments: CommentsModel, rest: Parts)
    requires
        spell(tokens, cursor.index, false, trailing_parts(comments, rest)),
    ensures
        ({
            let (found, next) = trailing(tokens, cursor);
            &&& same_optional(found, comments.trailing)
            &&& next.pending == cursor.pending
            &&& spell(tokens, next.index, false, broken(rest))
            &&& comments.trailing is None ==> next == cursor
        }),
{
    let parts = trailing_parts(comments, rest);
    trailing_past_white(tokens, cursor.index);
    past_white_twice(tokens, cursor.index);
    let at = past_white(tokens, cursor.index);
    match comments.trailing {
        Some(comment) => {
            let gap = seq![' '] + Seq::<char>::empty();
            assert(!gap.contains('\n'));
            assert(tokens[at].kind == comment_kind(comment));
            assert(is_comment(tokens[at]));
            assert(!tokens[at].on_own_line);
        },
        None => {
            match rest {
                Parts::End { .. } => {},
                Parts::Token { gap, .. } => {
                    let all = seq!['\n'] + gap;
                    assert(all[0] == '\n');
                    assert(all.contains('\n'));
                },
            }
        },
    }
}

proof fn trailing_past_white(tokens: Seq<TokenModel>, index: int)
    requires
        0 <= index,
    ensures
        trailing_at(tokens, index) == trailing_at(tokens, past_white(tokens, index)),
    decreases tokens.len() - index,
{
    if index < tokens.len() && tokens[index].kind == TokenKind::Trivia(TriviaKind::Whitespace) {
        trailing_past_white(tokens, index + 1);
    }
}

/// No comment trails what stands in front of a token that is none.
proof fn nothing_trails(tokens: Seq<TokenModel>, cursor: Cursor, own: bool, parts: Parts)
    requires
        spell(tokens, cursor.index, own, parts),
        parts is Token ==> !(parts->kind is Trivia),
    ensures
        trailing(tokens, cursor) == (None::<CommentModel>, cursor),
{
    trailing_past_white(tokens, cursor.index);
}

/// The comments behind a part are read as those in front of it and the one that trails it.
proof fn remarks_read(
    tokens: Seq<TokenModel>,
    cursor: Cursor,
    leading: Seq<CommentModel>,
    comments: CommentsModel,
    rest: Parts,
)
    requires
        cursor.pending.len() == 0,
        spell(tokens, cursor.index, false, trailing_parts(comments, rest)),
    ensures
        ({
            let (found, next) = remarked(tokens, cursor, leading);
            &&& found.leading == leading
            &&& same_optional(found.trailing, comments.trailing)
            &&& next == Cursor { index: next.index, pending: Seq::empty() }
            &&& spell(tokens, next.index, false, broken(rest))
        }),
{
    trailing_read(tokens, taken(cursor), comments, rest);
    assert(leading + cursor.pending =~= leading);
}

/// The end of an entry is read as it was written. What follows starts at the index that
/// comes back.
proof fn entry_read(
    tokens: Seq<TokenModel>,
    start: Cursor,
    leading: Seq<CommentModel>,
    last: bool,
    comments: CommentsModel,
    rest: Parts,
) -> (index: int)
    requires
        start.pending.len() == 0,
        same_list(leading, comments.leading),
        spell(tokens, start.index, false, entry_parts(last, comments, rest)),
        last ==> first_kind(rest) != TokenKind::Comma,
    ensures
        spell(tokens, index, false, broken(rest)),
        ({
            let (separated, found, next) = entry_end(tokens, start, leading);
            &&& separated == !last
            &&& same_remarks(found, comments)
            &&& skip(tokens, next) == skip(tokens, Cursor { index, pending: Seq::empty() })
            &&& last ==> next == skip(tokens, Cursor { index, pending: Seq::empty() })
        }),
{
    let end = trailing_parts(comments, rest);
    assert(taken(start) == start) by {
        assert(start.pending =~= Seq::empty());
    }
    if last {
        remarks_read(tokens, start, leading, comments, rest);
        let (found, behind_it) = remarked(tokens, start, leading);
        first_behind(seq!['\n'], rest);
        first_found(tokens, behind_it, false, broken(rest));
        skip_twice(tokens, behind_it);
        behind_it.index
    } else {
        let comma = sign(TokenKind::Comma, end);
        token_found(tokens, start, false, comma);
        let at = skip(tokens, start);
        nothing_trails(tokens, start, false, comma);
        assert(leading + start.pending =~= leading);
        let next = step(at);
        remarks_read(tokens, next, leading, comments, rest);
        remarked(tokens, next, leading).1.index
    }
}

// -- Single tokens -----------------------------------------------------------------

/// A name is read.
proof fn name_read(tokens: Seq<TokenModel>, cursor: Cursor, parts: Parts, what: Seq<char>)
    requires
        spell(tokens, cursor.index, false, parts),
        parts is Token,
        names(parts->kind),
    ensures
        identifier(tokens, cursor, what) matches Ok((found, next)) && found.value == parts->text
            && next.pending == cursor.pending && spell(tokens, next.index, false, *parts->rest),
{
    token_found(tokens, cursor, false, parts);
}

/// A string literal is read.
proof fn quote_read(tokens: Seq<TokenModel>, cursor: Cursor, parts: Parts, what: Seq<char>)
    requires
        spell(tokens, cursor.index, false, parts),
        parts is Token,
        parts->kind == TokenKind::StringLiteral,
    ensures
        quoted(tokens, cursor, what) matches Ok((found, next)) && found.value == parts->text
            && next.pending == cursor.pending && spell(tokens, next.index, false, *parts->rest),
{
    token_found(tokens, cursor, false, parts);
}

/// A token of one kind is read.
proof fn kind_read(
    tokens: Seq<TokenModel>,
    cursor: Cursor,
    parts: Parts,
    wanted: TokenKind,
    what: Seq<char>,
)
    requires
        spell(tokens, cursor.index, false, parts),
        parts is Token,
        parts->kind == wanted,
        !(wanted is Trivia),
    ensures
        expected(tokens, cursor, wanted, what) matches Ok((found, next)) && found.text
            == parts->text && next.pending == cursor.pending && spell(
            tokens,
            next.index,
            false,
            *parts->rest,
        ),
{
    token_found(tokens, cursor, false, parts);
}

/// What the words that the formatter writes by itself are.
proof fn word_kinds()
    ensures
        word_kind("true"@) == TokenKind::Keyword(Keyword::True),
        word_kind("false"@) == TokenKind::Keyword(Keyword::False),
        word_kind("schema"@) == TokenKind::Keyword(Keyword::Schema),
        word_kind("node"@) == TokenKind::Keyword(Keyword::Node),
        word_kind("edge"@) == TokenKind::Keyword(Keyword::Edge),
        word_kind("as"@) == TokenKind::Keyword(Keyword::As),
        word_kind("bytes"@) == TokenKind::Keyword(Keyword::Bytes),
        word_kind("datetime"@) == TokenKind::Keyword(Keyword::Datetime),
        word_kind("analyzer"@) == TokenKind::Identifier,
        word_kind("ai"@) == TokenKind::Identifier,
        word_kind("user"@) == TokenKind::Identifier,
        word_kind("unit"@) == TokenKind::Identifier,
        word_kind("boolean"@) == TokenKind::Identifier,
        word_kind("integer"@) == TokenKind::Identifier,
        word_kind("double"@) == TokenKind::Identifier,
        word_kind("string"@) == TokenKind::Identifier,
{
    reveal_strlit("as");
    reveal_strlit("bytes");
    reveal_strlit("datetime");
    reveal_strlit("edge");
    reveal_strlit("false");
    reveal_strlit("id");
    reveal_strlit("module");
    reveal_strlit("node");
    reveal_strlit("schema");
    reveal_strlit("source");
    reveal_strlit("true");
    reveal_strlit("analyzer");
    reveal_strlit("ai");
    reveal_strlit("user");
    reveal_strlit("unit");
    reveal_strlit("boolean");
    reveal_strlit("integer");
    reveal_strlit("double");
    reveal_strlit("string");
    let words = seq![
        "as"@,
        "bytes"@,
        "datetime"@,
        "edge"@,
        "false"@,
        "id"@,
        "module"@,
        "node"@,
        "schema"@,
        "source"@,
        "true"@,
    ];
    assert forall|i: int, j: int| 0 <= i < j < words.len() implies #[trigger] words[i]
        != #[trigger] words[j] by {
        assert(words[i].len() != words[j].len() || words[i][0] != words[j][0] || words[i][1]
            != words[j][1]);
    }
    assert forall|i: int| 0 <= i < words.len() implies #[trigger] words[i] != "analyzer"@
        && words[i] != "ai"@ && words[i] != "user"@ && words[i] != "unit"@ && words[i]
        != "boolean"@ && words[i] != "integer"@ && words[i] != "double"@ && words[i]
        != "string"@ by {
        assert(words[i].len() != 8 || words[i][0] != 'a');
        assert(words[i].len() != 2 || words[i][1] != 'i');
        assert(words[i].len() != 4 || words[i][0] != 'u');
        assert(words[i].len() != 7);
        assert(words[i].len() != 6 || (words[i][0] != 'd' && words[i][1] != 't'));
    }
    assert(words[0] == "as"@ && words[1] == "bytes"@ && words[2] == "datetime"@ && words[3]
        == "edge"@ && words[4] == "false"@ && words[5] == "id"@ && words[6] == "module"@ && words[7]
        == "node"@ && words[8] == "schema"@ && words[9] == "source"@ && words[10] == "true"@);
}

// -- Values ------------------------------------------------------------------------

/// A scalar as it is read back: a number and the digits of bytes in their normal form.
pub open spec fn canonical_scalar(value: ValueModel) -> ValueModel {
    match value {
        ValueModel::Integer(text) => ValueModel::Integer(integer_text(text)),
        ValueModel::Float(text) => ValueModel::Float(float_text(text)),
        ValueModel::Bytes { digits, .. } => ValueModel::Bytes {
            decoded: hex_bytes(lowered(digits)),
            digits: lowered(digits),
        },
        _ => value,
    }
}

/// Whether a value was read back as it was written.
pub open spec fn same_value(read: ValueModel, wrote: ValueModel) -> bool {
    match wrote {
        ValueModel::List(items) => read matches ValueModel::List(found) && found.len()
            == items.len() && forall|i: int|
            0 <= i < items.len() ==> (#[trigger] found[i]).value == canonical_scalar(items[i].value),
        _ => read == canonical_scalar(wrote),
    }
}

proof fn scalar_is_token(value: ValueModel, rest: Parts)
    requires
        writable_scalar(value),
    ensures
        scalar_parts(value, rest) is Token,
        !(scalar_parts(value, rest)->kind is Trivia),
        scalar_parts(value, rest)->kind != TokenKind::RightBracket,
        scalar_parts(value, rest)->kind != TokenKind::LeftBracket,
        *scalar_parts(value, rest)->rest == rest,
{
    word_kinds();
}

proof fn scalar_read(tokens: Seq<TokenModel>, cursor: Cursor, value: ValueModel, rest: Parts)
    requires
        writable_scalar(value),
        spell(tokens, cursor.index, false, scalar_parts(value, rest)),
    ensures
        scalar(tokens, cursor) matches Ok((found, next)) && found.value == canonical_scalar(value)
            && next.pending == cursor.pending && spell(tokens, next.index, false, rest),
{
    word_kinds();
    scalar_is_token(value, rest);
    token_found(tokens, cursor, false, scalar_parts(value, rest));
}

proof fn scalars_read(
    tokens: Seq<TokenModel>,
    cursor: Cursor,
    items: Seq<Spanned<ValueModel>>,
    from: int,
    before: Seq<Spanned<ValueModel>>,
    rest: Parts,
)
    requires
        forall|i: int| 0 <= i < items.len() ==> writable_scalar((#[trigger] items[i]).value),
        0 <= from < items.len(),
        rest is Token,
        rest->kind == TokenKind::RightBracket,
        spell(tokens, cursor.index, false, items_parts(items, from, rest)),
    ensures
        scalars(tokens, cursor, before) matches Ok((found, next)) && found.len() == before.len()
            + items.len() - from && (forall|i: int| 0 <= i < before.len() ==> found[i] == before[i])
            && (forall|i: int|
            from <= i < items.len() ==> (#[trigger] found[before.len() + i - from]).value
                == canonical_scalar(items[i].value)) && next.pending == cursor.pending && spell(
            tokens,
            next.index,
            false,
            rest,
        ),
    decreases items.len() - from,
{
    assert(writable_scalar(items[from].value));
    scalar_moves(tokens, cursor);
    if from == items.len() - 1 {
        scalar_read(tokens, cursor, items[from].value, rest);
        let (item, next) = scalar(tokens, cursor)->Ok_0;
        token_found(tokens, next, false, rest);
        let found = scalars(tokens, cursor, before)->Ok_0.0;
        assert(found == before.push(item));
        assert forall|i: int| from <= i < items.len() implies (
        #[trigger] found[before.len() + i - from]).value == canonical_scalar(items[i].value) by {
            assert(i == from);
        }
    } else {
        let more = items_parts(items, from + 1, rest);
        let comma = sign(TokenKind::Comma, spaced(more));
        scalar_read(tokens, cursor, items[from].value, comma);
        let (item, next) = scalar(tokens, cursor)->Ok_0;
        token_found(tokens, next, false, comma);
        let at = skip(tokens, next);
        assert(writable_scalar(items[from + 1].value));
        if from + 1 == items.len() - 1 {
            scalar_is_token(items[from + 1].value, rest);
        } else {
            scalar_is_token(
                items[from + 1].value,
                sign(TokenKind::Comma, spaced(items_parts(items, from + 2, rest))),
            );
        }
        spell_anywhere(tokens, step(at).index, false, seq![' '], more);
        token_found(tokens, step(at), false, more);
        let start = skip(tokens, step(at));
        skip_moves(tokens, next);
        skip_moves(tokens, step(at));
        scalars_read(tokens, start, items, from + 1, before.push(item), rest);
        let (found, last) = scalars(tokens, start, before.push(item))->Ok_0;
        assert(scalars(tokens, cursor, before) == scalars(tokens, start, before.push(item)));
        assert forall|i: int| 0 <= i < before.len() implies found[i] == before[i] by {
            assert(found[i] == before.push(item)[i]);
        }
        assert forall|i: int| from <= i < items.len() implies (
        #[trigger] found[before.len() + i - from]).value == canonical_scalar(items[i].value) by {
            if i == from {
                assert(found[before.len() as int] == before.push(item)[before.len() as int]);
            } else {
                assert(before.push(item).len() + i - (from + 1) == before.len() + i - from);
                assert(found[before.push(item).len() + i - (from + 1)].value == canonical_scalar(
                    items[i].value,
                ));
            }
        }
    }
}

proof fn value_read(tokens: Seq<TokenModel>, cursor: Cursor, wrote: ValueModel, rest: Parts)
    requires
        writable_value(wrote),
        spell(tokens, cursor.index, false, value_parts(wrote, rest)),
    ensures
        value(tokens, cursor) matches Ok((found, next)) && same_value(found.value, wrote)
            && next.pending == cursor.pending && spell(tokens, next.index, false, rest),
{
    match wrote {
        ValueModel::List(items) => {
            let close = sign(TokenKind::RightBracket, rest);
            let inside = items_parts(items, 0, close);
            token_found(tokens, cursor, false, sign(TokenKind::LeftBracket, inside));
            let at = skip(tokens, cursor);
            let none = Seq::<Spanned<ValueModel>>::empty();
            if items.len() == 0 {
                token_found(tokens, step(at), false, close);
                let first = skip(tokens, step(at));
                kind_read(tokens, first, close, TokenKind::RightBracket, "`]`"@);
                assert(value(tokens, cursor)->Ok_0.0.value == ValueModel::List(none));
            } else {
                assert(writable_scalar(items[0].value));
                if items.len() == 1 {
                    scalar_is_token(items[0].value, close);
                } else {
                    scalar_is_token(
                        items[0].value,
                        sign(TokenKind::Comma, spaced(items_parts(items, 1, close))),
                    );
                }
                token_found(tokens, step(at), false, inside);
                let first = skip(tokens, step(at));
                scalars_read(tokens, first, items, 0, none, close);
                let (found, next) = scalars(tokens, first, none)->Ok_0;
                kind_read(tokens, next, close, TokenKind::RightBracket, "`]`"@);
                assert forall|i: int| 0 <= i < items.len() implies (#[trigger] found[i]).value
                    == canonical_scalar(items[i].value) by {
                    assert(none.len() + i - 0 == i);
                    assert(found[none.len() + i - 0].value == canonical_scalar(items[i].value));
                }
                assert(value(tokens, cursor)->Ok_0.0.value == ValueModel::List(found));
            }
        },
        _ => {
            scalar_is_token(wrote, rest);
            token_found(tokens, cursor, false, scalar_parts(wrote, rest));
            scalar_read(tokens, skip(tokens, cursor), wrote, rest);
        },
    }
}

// -- Properties --------------------------------------------------------------------

/// Whether a property was read back as it was written.
pub open spec fn same_property(read: PropertyModel, wrote: PropertyModel) -> bool {
    read.key.value == wrote.key.value && same_value(read.value.value, shown_value(wrote))
        && same_remarks(read.comments, wrote.comments)
}

/// Whether what follows a list of entries ends it.
pub open spec fn ends_entries(rest: Parts) -> bool {
    !names(first_kind(rest)) && first_kind(rest) != TokenKind::Comma
}

proof fn property_read(
    tokens: Seq<TokenModel>,
    at: Cursor,
    wrote: PropertyModel,
    last: bool,
    rest: Parts,
) -> (index: int)
    requires
        writable_property(wrote),
        same_list(at.pending, wrote.comments.leading),
        last ==> first_kind(rest) != TokenKind::Comma,
        spell(
            tokens,
            at.index,
            false,
            word(
                wrote.key.value,
                sign(
                    TokenKind::Colon,
                    spaced(value_parts(shown_value(wrote), entry_parts(last, wrote.comments, rest))),
                ),
            ),
        ),
    ensures
        spell(tokens, index, false, broken(rest)),
        property(tokens, at) matches Ok(((found, separated), next)) && same_property(found, wrote)
            && separated == !last && skip(tokens, next) == skip(
            tokens,
            Cursor { index, pending: Seq::empty() },
        ) && (last ==> next == skip(tokens, Cursor { index, pending: Seq::empty() })),
{
    let end = entry_parts(last, wrote.comments, rest);
    shown_is_writable(wrote);
    let inner = value_parts(shown_value(wrote), end);
    let colon = sign(TokenKind::Colon, spaced(inner));
    let start = taken(at);
    name_read(tokens, start, word(wrote.key.value, colon), "a property key"@);
    let (key, second) = identifier(tokens, start, "a property key"@)->Ok_0;
    kind_read(tokens, second, colon, TokenKind::Colon, "`:` after a property key"@);
    let (_, third) = expected(tokens, second, TokenKind::Colon, "`:` after a property key"@)->Ok_0;
    match shown_value(wrote) {
        ValueModel::List(_) => {},
        _ => {
            scalar_is_token(shown_value(wrote), end);
        },
    }
    spell_anywhere(tokens, third.index, false, seq![' '], inner);
    value_read(tokens, third, shown_value(wrote), end);
    let (found, fourth) = value(tokens, third)->Ok_0;
    entry_read(tokens, fourth, at.pending, last, wrote.comments, rest)
}

proof fn properties_read(
    tokens: Seq<TokenModel>,
    cursor: Cursor,
    start: int,
    depth: nat,
    items: Seq<PropertyModel>,
    from: int,
    before: Seq<PropertyModel>,
    rest: Parts,
) -> (index: int)
    requires
        forall|i: int| 0 <= i < items.len() ==> writable_property(#[trigger] items[i]),
        0 <= from <= items.len(),
        ends_entries(rest),
        skip(tokens, cursor) == skip(tokens, Cursor { index: start, pending: Seq::empty() }),
        spell(tokens, start, false, broken(properties_parts(depth, items, from, rest))),
    ensures
        spell(tokens, index, false, broken(rest)),
        properties(tokens, cursor, before) matches Ok((found, next)) && found.len() == before.len()
            + items.len() - from && (forall|i: int| 0 <= i < before.len() ==> found[i] == before[i])
            && (forall|i: int|
            from <= i < items.len() ==> same_property(
                #[trigger] found[before.len() + i - from],
                items[i],
            )) && next == skip(tokens, Cursor { index, pending: Seq::empty() }),
    decreases items.len() - from,
{
    let clean = Cursor { index: start, pending: Seq::empty() };
    if from == items.len() {
        first_behind(seq!['\n'], rest);
        first_found(tokens, clean, false, broken(rest));
        start
    } else {
        let item = items[from];
        assert(writable_property(items[from]));
        let last = from == items.len() - 1;
        let more = properties_parts(depth, items, from + 1, rest);
        let key = word(
            item.key.value,
            sign(
                TokenKind::Colon,
                spaced(value_parts(shown_value(item), entry_parts(last, item.comments, more))),
            ),
        );
        let (place, read) = leading_read(
            tokens,
            clean,
            false,
            seq!['\n'],
            depth,
            item.comments.leading,
            0,
            indented(depth, key),
        );
        assert(item.comments.leading.subrange(0, item.comments.leading.len() as int)
            =~= item.comments.leading);
        assert(Seq::<CommentModel>::empty() + read =~= read);
        let led = Cursor { index: place, pending: read };
        spell_anywhere(tokens, place, false, super::format::indent(depth), key);
        token_found(tokens, led, false, key);
        let at = skip(tokens, cursor);
        assert(at == skip(tokens, led));
        let after = property_read(tokens, at, item, last, more);
        skip_moves(tokens, cursor);
        property_moves(tokens, at);
        let ((found, separated), next) = property(tokens, at)->Ok_0;
        let grown = before.push(found);
        if last {
            let all = properties(tokens, cursor, before)->Ok_0.0;
            assert(all == grown);
            assert forall|i: int| from <= i < items.len() implies same_property(
                #[trigger] all[before.len() + i - from],
                items[i],
            ) by {
                assert(i == from);
            }
            after
        } else {
            let index = properties_read(tokens, next, after, depth, items, from + 1, grown, rest);
            let all = properties(tokens, next, grown)->Ok_0.0;
            assert forall|i: int| 0 <= i < before.len() implies all[i] == before[i] by {
                assert(all[i] == grown[i]);
            }
            assert forall|i: int| from <= i < items.len() implies same_property(
                #[trigger] all[before.len() + i - from],
                items[i],
            ) by {
                if i == from {
                    assert(all[before.len() as int] == grown[before.len() as int]);
                } else {
                    assert(grown.len() + i - (from + 1) == before.len() + i - from);
                    assert(same_property(all[grown.len() + i - (from + 1)], items[i]));
                }
            }
            index
        }
    }
}

// -- Evidence ----------------------------------------------------------------------

/// Whether an evidence value was read back as it was written.
pub open spec fn same_evidence(read: EvidenceValueModel, wrote: EvidenceValueModel) -> bool {
    match wrote {
        EvidenceValueModel::Text(_) => read == wrote,
        EvidenceValueModel::Enumerator { name, score } => read == EvidenceValueModel::Enumerator {
            name,
            score: match score {
                Some(text) => Some(float_text(text)),
                None => None,
            },
        },
    }
}

/// Whether an evidence field was read back as it was written.
pub open spec fn same_evidence_field(read: EvidenceFieldModel, wrote: EvidenceFieldModel) -> bool {
    read.key.value == wrote.key.value && same_evidence(read.value.value, wrote.value.value)
        && same_remarks(read.comments, wrote.comments)
}

/// An evidence value is read back. The cursor lies in front of what follows it.
proof fn evidence_value_read(
    tokens: Seq<TokenModel>,
    cursor: Cursor,
    wrote: EvidenceValueModel,
    rest: Parts,
)
    requires
        writable_evidence(wrote),
        first_kind(rest) != TokenKind::LeftParen,
        spell(tokens, cursor.index, false, evidence_value_parts(wrote, rest)),
    ensures
        evidence_value(tokens, cursor) matches Ok((found, next)) && same_evidence(
            found.value,
            wrote,
        ) && next.pending == cursor.pending && spell(tokens, next.index, false, rest),
{
    let parts = evidence_value_parts(wrote, rest);
    token_found(tokens, cursor, false, parts);
    let at = skip(tokens, cursor);
    match wrote {
        EvidenceValueModel::Text(text) => {
            quote_read(tokens, at, parts, "a quoted value"@);
        },
        EvidenceValueModel::Enumerator { name, score } => {
            name_read(tokens, at, parts, "a quoted value or a bare word"@);
            let (word, next) = identifier(tokens, at, "a quoted value or a bare word"@)->Ok_0;
            match score {
                Some(text) => {
                    let close = sign(TokenKind::RightParen, rest);
                    let inside = number(score_kind(text), float_text(text), close);
                    let open = sign(TokenKind::LeftParen, inside);
                    token_found(tokens, next, false, open);
                    let second = skip(tokens, next);
                    token_found(tokens, step(second), false, inside);
                    let third = skip(tokens, step(second));
                    kind_read(
                        tokens,
                        step(third),
                        close,
                        TokenKind::RightParen,
                        "`)` after a score"@,
                    );
                },
                None => {
                    first_found(tokens, next, false, rest);
                },
            }
        },
    }
}

proof fn entry_first_kind(last: bool, comments: CommentsModel, rest: Parts)
    ensures
        first_kind(entry_parts(last, comments, rest)) == (if last {
            first_kind(rest)
        } else {
            TokenKind::Comma
        }),
{
    first_behind(seq!['\n'], rest);
    if let Some(comment) = comments.trailing {
        first_behind(seq![' '], remark(comment, broken(rest)));
    }
}

proof fn evidence_field_read(
    tokens: Seq<TokenModel>,
    at: Cursor,
    wrote: EvidenceFieldModel,
    last: bool,
    rest: Parts,
) -> (index: int)
    requires
        writable_evidence_field(wrote),
        same_list(at.pending, wrote.comments.leading),
        last ==> first_kind(rest) != TokenKind::Comma && first_kind(rest) != TokenKind::LeftParen,
        spell(
            tokens,
            at.index,
            false,
            word(
                wrote.key.value,
                sign(
                    TokenKind::Colon,
                    spaced(
                        evidence_value_parts(
                            wrote.value.value,
                            entry_parts(last, wrote.comments, rest),
                        ),
                    ),
                ),
            ),
        ),
    ensures
        spell(tokens, index, false, broken(rest)),
        evidence_field(tokens, at) matches Ok(((found, separated), next)) && same_evidence_field(
            found,
            wrote,
        ) && separated == !last && skip(tokens, next) == skip(
            tokens,
            Cursor { index, pending: Seq::empty() },
        ) && (last ==> next == skip(tokens, Cursor { index, pending: Seq::empty() })),
{
    let end = entry_parts(last, wrote.comments, rest);
    let inner = evidence_value_parts(wrote.value.value, end);
    let colon = sign(TokenKind::Colon, spaced(inner));
    let start = taken(at);
    name_read(tokens, start, word(wrote.key.value, colon), "an evidence key"@);
    let (key, second) = identifier(tokens, start, "an evidence key"@)->Ok_0;
    kind_read(tokens, second, colon, TokenKind::Colon, "`:` after an evidence key"@);
    let (_, third) = expected(tokens, second, TokenKind::Colon, "`:` after an evidence key"@)->Ok_0;
    spell_anywhere(tokens, third.index, false, seq![' '], inner);
    entry_first_kind(last, wrote.comments, rest);
    evidence_value_read(tokens, third, wrote.value.value, end);
    let (found, fourth) = evidence_value(tokens, third)->Ok_0;
    entry_read(tokens, fourth, at.pending, last, wrote.comments, rest)
}

proof fn evidence_fields_read(
    tokens: Seq<TokenModel>,
    cursor: Cursor,
    start: int,
    depth: nat,
    items: Seq<EvidenceFieldModel>,
    from: int,
    before: Seq<EvidenceFieldModel>,
    rest: Parts,
) -> (index: int)
    requires
        forall|i: int| 0 <= i < items.len() ==> writable_evidence_field(#[trigger] items[i]),
        0 <= from <= items.len(),
        ends_entries(rest),
        first_kind(rest) != TokenKind::LeftParen,
        skip(tokens, cursor) == skip(tokens, Cursor { index: start, pending: Seq::empty() }),
        spell(tokens, start, false, broken(evidence_fields_parts(depth, items, from, rest))),
    ensures
        spell(tokens, index, false, broken(rest)),
        evidence_fields(tokens, cursor, before) matches Ok((found, next)) && found.len()
            == before.len() + items.len() - from && (forall|i: int|
            0 <= i < before.len() ==> found[i] == before[i]) && (forall|i: int|
            from <= i < items.len() ==> same_evidence_field(
                #[trigger] found[before.len() + i - from],
                items[i],
            )) && next == skip(tokens, Cursor { index, pending: Seq::empty() }),
    decreases items.len() - from,
{
    let clean = Cursor { index: start, pending: Seq::empty() };
    if from == items.len() {
        first_behind(seq!['\n'], rest);
        first_found(tokens, clean, false, broken(rest));
        start
    } else {
        let item = items[from];
        assert(writable_evidence_field(items[from]));
        let last = from == items.len() - 1;
        let more = evidence_fields_parts(depth, items, from + 1, rest);
        let key = word(
            item.key.value,
            sign(
                TokenKind::Colon,
                spaced(
                    evidence_value_parts(item.value.value, entry_parts(last, item.comments, more)),
                ),
            ),
        );
        let (place, read) = leading_read(
            tokens,
            clean,
            false,
            seq!['\n'],
            depth,
            item.comments.leading,
            0,
            indented(depth, key),
        );
        assert(item.comments.leading.subrange(0, item.comments.leading.len() as int)
            =~= item.comments.leading);
        assert(Seq::<CommentModel>::empty() + read =~= read);
        let led = Cursor { index: place, pending: read };
        spell_anywhere(tokens, place, false, super::format::indent(depth), key);
        token_found(tokens, led, false, key);
        let at = skip(tokens, cursor);
        assert(at == skip(tokens, led));
        let after = evidence_field_read(tokens, at, item, last, more);
        skip_moves(tokens, cursor);
        evidence_field_moves(tokens, at);
        let ((found, separated), next) = evidence_field(tokens, at)->Ok_0;
        let grown = before.push(found);
        if last {
            let all = evidence_fields(tokens, cursor, before)->Ok_0.0;
            assert(all == grown);
            assert forall|i: int| from <= i < items.len() implies same_evidence_field(
                #[trigger] all[before.len() + i - from],
                items[i],
            ) by {
                assert(i == from);
            }
            after
        } else {
            let index = evidence_fields_read(
                tokens,
                next,
                after,
                depth,
                items,
                from + 1,
                grown,
                rest,
            );
            let all = evidence_fields(tokens, next, grown)->Ok_0.0;
            assert forall|i: int| 0 <= i < before.len() implies all[i] == before[i] by {
                assert(all[i] == grown[i]);
            }
            assert forall|i: int| from <= i < items.len() implies same_evidence_field(
                #[trigger] all[before.len() + i - from],
                items[i],
            ) by {
                if i == from {
                    assert(all[before.len() as int] == grown[before.len() as int]);
                } else {
                    assert(grown.len() + i - (from + 1) == before.len() + i - from);
                    assert(same_evidence_field(all[grown.len() + i - (from + 1)], items[i]));
                }
            }
            index
        }
    }
}

// -- Blocks ------------------------------------------------------------------------

proof fn leading_first_kind(depth: nat, comments: Seq<CommentModel>, from: int, rest: Parts)
    ensures
        first_kind(leading_parts(depth, comments, from, rest)) == first_kind(rest),
    decreases comments.len() - from,
{
    if 0 <= from < comments.len() {
        leading_first_kind(depth, comments, from + 1, rest);
        let more = leading_parts(depth, comments, from + 1, rest);
        first_behind(seq!['\n'], more);
        first_behind(super::format::indent(depth), remark(comments[from], broken(more)));
    }
}

proof fn close_first_kind(depth: nat, rest: Parts)
    ensures
        first_kind(close_parts(depth, rest)) == TokenKind::RightBrace,
{
}

proof fn closing_first_kind(depth: nat, comments: Seq<CommentModel>, blocks: bool, rest: Parts)
    ensures
        first_kind(closing_parts(depth, comments, blocks, rest)) == first_kind(rest),
{
    leading_first_kind(depth, comments, 0, rest);
    first_behind(seq!['\n'], leading_parts(depth, comments, 0, rest));
}

/// Where the line ends behind a brace, the block gets no comment from it.
proof fn nothing_is_added(
    tokens: Seq<TokenModel>,
    cursor: Cursor,
    left: Seq<CommentModel>,
    rest: Parts,
)
    requires
        spell(tokens, cursor.index, false, broken(rest)),
    ensures
        forall|comments: CommentsModel, hollow: bool|
            #[trigger] closed(tokens, cursor, comments, hollow, left) == (comments, left, cursor),
{
    let none = CommentsModel { leading: Seq::empty(), trailing: None };
    trailing_read(tokens, cursor, none, rest);
    assert(left + optional_comment(None) =~= left);
    assert forall|comments: CommentsModel, hollow: bool|
        #[trigger] closed(tokens, cursor, comments, hollow, left) == (comments, left, cursor) by {}
}

/// The comments at the end of a block are read as pending in front of its brace, and the
/// brace is read.
proof fn close_read(
    tokens: Seq<TokenModel>,
    start: int,
    inner: nat,
    comments: Seq<CommentModel>,
    blocks: bool,
    depth: nat,
    rest: Parts,
    what: Seq<char>,
)
    requires
        spell(
            tokens,
            start,
            false,
            broken(closing_parts(inner, comments, blocks, close_parts(depth, rest))),
        ),
    ensures
        ({
            let at = skip(tokens, Cursor { index: start, pending: Seq::empty() });
            &&& same_list(at.pending, comments)
            &&& kind(tokens, at) == TokenKind::RightBrace
            &&& expected(tokens, taken(at), TokenKind::RightBrace, what) matches Ok((_, next))
                && next.pending == Seq::<CommentModel>::empty() && spell(
                tokens,
                next.index,
                false,
                broken(rest),
            ) && forall|found: CommentsModel, hollow: bool|
                #[trigger] closed(tokens, next, found, hollow, at.pending) == (
                    found,
                    at.pending,
                    next,
                )
        }),
{
    let clean = Cursor { index: start, pending: Seq::empty() };
    let brace = sign(TokenKind::RightBrace, broken(rest));
    let close = close_parts(depth, rest);
    let gap = if comments.len() > 0 && blocks {
        seq!['\n'] + seq!['\n']
    } else {
        seq!['\n']
    };
    behind_twice(seq!['\n'], seq!['\n'], leading_parts(inner, comments, 0, close));
    assert(broken(closing_parts(inner, comments, blocks, close)) == behind(
        gap,
        leading_parts(inner, comments, 0, close),
    ));
    let (place, read) = leading_read(tokens, clean, false, gap, inner, comments, 0, close);
    assert(comments.subrange(0, comments.len() as int) =~= comments);
    assert(Seq::<CommentModel>::empty() + read =~= read);
    let led = Cursor { index: place, pending: read };
    spell_anywhere(tokens, place, false, super::format::indent(depth), brace);
    token_found(tokens, led, false, brace);
    let at = skip(tokens, led);
    kind_read(tokens, taken(at), brace, TokenKind::RightBrace, what);
    let (_, next) = expected(tokens, taken(at), TokenKind::RightBrace, what)->Ok_0;
    nothing_is_added(tokens, next, at.pending, rest);
}

/// The braces of an empty block are read, with the comment that trails them.
proof fn hollow_read(
    tokens: Seq<TokenModel>,
    cursor: Cursor,
    leading: Seq<CommentModel>,
    comments: CommentsModel,
    rest: Parts,
    first: Seq<char>,
    second: Seq<char>,
)
    requires
        spell(tokens, cursor.index, false, hollow_parts(comments, rest)),
        cursor.pending.len() == 0,
    ensures
        expected(tokens, cursor, TokenKind::LeftBrace, first) matches Ok((_, inside)) && ({
            let at = skip(tokens, inside);
            let alone = CommentsModel { leading, trailing: None };
            &&& remarked(tokens, inside, leading) == (alone, inside)
            &&& at.pending == Seq::<CommentModel>::empty()
            &&& kind(tokens, at) == TokenKind::RightBrace
            &&& skip(tokens, at) == at
            &&& expected(tokens, taken(at), TokenKind::RightBrace, second) matches Ok((_, next)) && ({
                let (found, left, last) = closed(tokens, next, alone, true, at.pending);
                &&& found.leading == leading
                &&& same_optional(found.trailing, comments.trailing)
                &&& left == Seq::<CommentModel>::empty()
                &&& last.pending == Seq::<CommentModel>::empty()
                &&& spell(tokens, last.index, false, broken(rest))
            })
        }),
{
    let close = sign(TokenKind::RightBrace, trailing_parts(comments, rest));
    let open = sign(TokenKind::LeftBrace, close);
    spell_anywhere(tokens, cursor.index, false, seq![' '], open);
    kind_read(tokens, cursor, open, TokenKind::LeftBrace, first);
    let (_, inside) = expected(tokens, cursor, TokenKind::LeftBrace, first)->Ok_0;
    assert(inside.pending =~= Seq::empty());
    assert(leading + inside.pending =~= leading);
    nothing_trails(tokens, inside, false, close);
    token_found(tokens, inside, false, close);
    let at = skip(tokens, inside);
    assert(at.pending =~= Seq::<CommentModel>::empty());
    skip_twice(tokens, inside);
    kind_read(tokens, taken(at), close, TokenKind::RightBrace, second);
    let (_, next) = expected(tokens, taken(at), TokenKind::RightBrace, second)->Ok_0;
    trailing_read(tokens, next, comments, rest);
}

/// The brace that opens a block is read, with the comment that trails it.
proof fn open_read(
    tokens: Seq<TokenModel>,
    cursor: Cursor,
    leading: Seq<CommentModel>,
    comments: CommentsModel,
    rest: Parts,
    what: Seq<char>,
)
    requires
        spell(tokens, cursor.index, false, open_parts(comments, rest)),
        cursor.pending.len() == 0,
    ensures
        expected(tokens, cursor, TokenKind::LeftBrace, what) matches Ok((_, inside)) && ({
            let (found, next) = remarked(tokens, inside, leading);
            &&& found.leading == leading
            &&& same_optional(found.trailing, comments.trailing)
            &&& next == Cursor { index: next.index, pending: Seq::empty() }
            &&& spell(tokens, next.index, false, broken(rest))
        }),
{
    let open = sign(TokenKind::LeftBrace, trailing_parts(comments, rest));
    spell_anywhere(tokens, cursor.index, false, seq![' '], open);
    kind_read(tokens, cursor, open, TokenKind::LeftBrace, what);
    let (_, inside) = expected(tokens, cursor, TokenKind::LeftBrace, what)->Ok_0;
    remarks_read(tokens, inside, leading, comments, rest);
}

/// Whether an evidence block was read back as it was written: its fields in order.
pub open spec fn same_evidence_block(read: EvidenceBlockModel, wrote: EvidenceBlockModel) -> bool {
    let fields = sorted::<EvidenceField>(wrote.fields);
    &&& read.fields.len() == fields.len()
    &&& forall|i: int| 0 <= i < fields.len() ==> same_evidence_field(#[trigger] read.fields[i], fields[i])
    &&& same_remarks(read.comments, wrote.comments)
    &&& same_list(read.block_comments, wrote.block_comments)
}

proof fn evidence_read(
    tokens: Seq<TokenModel>,
    at: Cursor,
    depth: nat,
    wrote: EvidenceBlockModel,
    rest: Parts,
)
    requires
        writable_evidence_block(wrote),
        same_list(at.pending, wrote.comments.leading),
        spell(
            tokens,
            at.index,
            false,
            directive(
                TokenKind::EvidenceDirective,
                if evidence_is_empty(wrote) {
                    hollow_parts(wrote.comments, rest)
                } else {
                    open_parts(
                        wrote.comments,
                        evidence_fields_parts(
                            depth + 1,
                            sorted::<EvidenceField>(wrote.fields),
                            0,
                            leading_parts(depth + 1, wrote.block_comments, 0, close_parts(depth, rest)),
                        ),
                    )
                },
            ),
        ),
    ensures
        evidence(tokens, at) matches Ok((found, next)) && same_evidence_block(found, wrote)
            && next.pending == Seq::<CommentModel>::empty() && spell(
            tokens,
            next.index,
            false,
            broken(rest),
        ),
{
    let fields = sorted::<EvidenceField>(wrote.fields);
    let none = Seq::<EvidenceFieldModel>::empty();
    let close = close_parts(depth, rest);
    let remarks = leading_parts(depth + 1, wrote.block_comments, 0, close);
    let inner = evidence_fields_parts(depth + 1, fields, 0, remarks);
    let open = if evidence_is_empty(wrote) {
        hollow_parts(wrote.comments, rest)
    } else {
        open_parts(wrote.comments, inner)
    };
    let head = directive(TokenKind::EvidenceDirective, open);
    let what = "`{` to open an evidence block"@;
    let end = "`}` to close an evidence block"@;
    sorted_length::<EvidenceField>(wrote.fields);
    kind_read(tokens, taken(at), head, TokenKind::EvidenceDirective, "`@evidence`"@);
    let (_, second) = expected(
        tokens,
        taken(at),
        TokenKind::EvidenceDirective,
        "`@evidence`"@,
    )->Ok_0;
    if evidence_is_empty(wrote) {
        hollow_read(tokens, second, at.pending, wrote.comments, rest, what, end);
        let (_, third) = expected(tokens, second, TokenKind::LeftBrace, what)->Ok_0;
        assert(evidence_fields(tokens, third, none)->Ok_0.0 == none);
    } else {
        open_read(tokens, second, at.pending, wrote.comments, inner, what);
        let (_, third) = expected(tokens, second, TokenKind::LeftBrace, what)->Ok_0;
        let (_, fourth) = remarked(tokens, third, at.pending);
        sorted_all::<EvidenceField>(wrote.fields, |f: EvidenceFieldModel| writable_evidence_field(f));
        assert forall|i: int| 0 <= i < fields.len() implies writable_evidence_field(
            #[trigger] fields[i],
        ) by {
            assert((|f: EvidenceFieldModel| writable_evidence_field(f))(fields[i]));
        }
        leading_first_kind(depth + 1, wrote.block_comments, 0, close);
        close_first_kind(depth, rest);
        assert(fourth == Cursor { index: fourth.index, pending: Seq::empty() });
        let index = evidence_fields_read(
            tokens,
            fourth,
            fourth.index,
            depth + 1,
            fields,
            0,
            none,
            remarks,
        );
        let (found, fifth) = evidence_fields(tokens, fourth, none)->Ok_0;
        assert(closing_parts(depth + 1, wrote.block_comments, false, close) == remarks);
        close_read(tokens, index, depth + 1, wrote.block_comments, false, depth, rest, end);
        assert forall|i: int| 0 <= i < fields.len() implies same_evidence_field(
            #[trigger] found[i],
            fields[i],
        ) by {
            assert(none.len() + i - 0 == i);
            assert(same_evidence_field(found[none.len() + i - 0], fields[i]));
        }
    }
}

proof fn evidence_blocks_read(
    tokens: Seq<TokenModel>,
    cursor: Cursor,
    start: int,
    depth: nat,
    items: Seq<EvidenceBlockModel>,
    from: int,
    before: Seq<EvidenceBlockModel>,
    rest: Parts,
) -> (index: int)
    requires
        forall|i: int| 0 <= i < items.len() ==> writable_evidence_block(#[trigger] items[i]),
        0 <= from <= items.len(),
        first_kind(rest) != TokenKind::EvidenceDirective,
        skip(tokens, cursor) == skip(tokens, Cursor { index: start, pending: Seq::empty() }),
        spell(tokens, start, false, broken(evidence_blocks_parts(depth, items, from, rest))),
    ensures
        spell(tokens, index, false, broken(rest)),
        evidence_blocks(tokens, cursor, before) matches Ok((found, next)) && found.len()
            == before.len() + items.len() - from && (forall|i: int|
            0 <= i < before.len() ==> found[i] == before[i]) && (forall|i: int|
            from <= i < items.len() ==> same_evidence_block(
                #[trigger] found[before.len() + i - from],
                items[i],
            )) && next == skip(tokens, Cursor { index, pending: Seq::empty() }),
    decreases items.len() - from,
{
    let clean = Cursor { index: start, pending: Seq::empty() };
    if from == items.len() {
        first_behind(seq!['\n'], rest);
        first_found(tokens, clean, false, broken(rest));
        start
    } else {
        let item = items[from];
        assert(writable_evidence_block(items[from]));
        let more = evidence_blocks_parts(depth, items, from + 1, rest);
        let head = directive(
            TokenKind::EvidenceDirective,
            if evidence_is_empty(item) {
                hollow_parts(item.comments, more)
            } else {
                open_parts(
                    item.comments,
                    evidence_fields_parts(
                        depth + 1,
                        sorted::<EvidenceField>(item.fields),
                        0,
                        leading_parts(depth + 1, item.block_comments, 0, close_parts(depth, more)),
                    ),
                )
            },
        );
        let led_parts = leading_parts(depth, item.comments.leading, 0, indented(depth, head));
        let gap = if from > 0 {
            seq!['\n'] + seq!['\n']
        } else {
            seq!['\n']
        };
        behind_twice(seq!['\n'], seq!['\n'], led_parts);
        let (place, read) = leading_read(
            tokens,
            clean,
            false,
            gap,
            depth,
            item.comments.leading,
            0,
            indented(depth, head),
        );
        assert(item.comments.leading.subrange(0, item.comments.leading.len() as int)
            =~= item.comments.leading);
        assert(Seq::<CommentModel>::empty() + read =~= read);
        let led = Cursor { index: place, pending: read };
        spell_anywhere(tokens, place, false, super::format::indent(depth), head);
        token_found(tokens, led, false, head);
        let at = skip(tokens, cursor);
        assert(at == skip(tokens, led));
        evidence_read(tokens, at, depth, item, more);
        skip_moves(tokens, cursor);
        evidence_moves(tokens, at);
        let (found, next) = evidence(tokens, at)->Ok_0;
        let grown = before.push(found);
        assert(next == Cursor { index: next.index, pending: Seq::empty() });
        let index = evidence_blocks_read(
            tokens,
            next,
            next.index,
            depth,
            items,
            from + 1,
            grown,
            rest,
        );
        let all = evidence_blocks(tokens, next, grown)->Ok_0.0;
        assert forall|i: int| 0 <= i < before.len() implies all[i] == before[i] by {
            assert(all[i] == grown[i]);
        }
        assert forall|i: int| from <= i < items.len() implies same_evidence_block(
            #[trigger] all[before.len() + i - from],
            items[i],
        ) by {
            if i == from {
                assert(all[before.len() as int] == grown[before.len() as int]);
            } else {
                assert(grown.len() + i - (from + 1) == before.len() + i - from);
                assert(same_evidence_block(all[grown.len() + i - (from + 1)], items[i]));
            }
        }
        index
    }
}

// -- Contributions -----------------------------------------------------------------

/// Whether an owner was read back as it was written.
pub open spec fn same_owner(read: OwnerDeclarationModel, wrote: OwnerDeclarationModel) -> bool {
    match (read, wrote) {
        (
            OwnerDeclarationModel::Analyzer { name: a, version: b },
            OwnerDeclarationModel::Analyzer { name, version },
        ) => a.value == name.value && b.value == version.value,
        (
            OwnerDeclarationModel::Ai { contract_digest: a },
            OwnerDeclarationModel::Ai { contract_digest },
        ) => a.value == contract_digest.value,
        (OwnerDeclarationModel::User { .. }, OwnerDeclarationModel::User { .. }) => true,
        (OwnerDeclarationModel::Named { name: a }, OwnerDeclarationModel::Named { name }) => a.value
            == name.value,
        _ => false,
    }
}

/// Whether a text that may be there was read back as it was written.
pub open spec fn same_text(read: Option<Spanned<Seq<char>>>, wrote: Option<Spanned<Seq<char>>>) -> bool {
    match (read, wrote) {
        (Some(a), Some(b)) => a.value == b.value,
        (None, None) => true,
        _ => false,
    }
}

proof fn owner_read(tokens: Seq<TokenModel>, cursor: Cursor, wrote: OwnerDeclarationModel, rest: Parts)
    requires
        spell(tokens, cursor.index, false, owner_parts(wrote, rest)),
    ensures
        owner(tokens, cursor) matches Ok((found, next)) && same_owner(found, wrote) && next.pending
            == cursor.pending && spell(tokens, next.index, false, rest),
{
    word_kinds();
    reveal_strlit("analyzer");
    reveal_strlit("ai");
    reveal_strlit("user");
    assert("analyzer"@.len() == 8 && "ai"@.len() == 2 && "user"@.len() == 4);
    let parts = owner_parts(wrote, rest);
    token_found(tokens, cursor, false, parts);
    let at = skip(tokens, cursor);
    match wrote {
        OwnerDeclarationModel::Analyzer { name, version } => {
            let last = quote(version.value, rest);
            let first = quote(name.value, spaced(last));
            spell_anywhere(tokens, step(at).index, false, seq![' '], first);
            quote_read(tokens, step(at), first, "a quoted analyzer name"@);
            let (_, next) = quoted(tokens, step(at), "a quoted analyzer name"@)->Ok_0;
            spell_anywhere(tokens, next.index, false, seq![' '], last);
            quote_read(tokens, next, last, "a quoted analyzer version"@);
        },
        OwnerDeclarationModel::Ai { contract_digest } => {
            let last = quote(contract_digest.value, rest);
            spell_anywhere(tokens, step(at).index, false, seq![' '], last);
            quote_read(tokens, step(at), last, "a quoted analysis contract digest"@);
        },
        OwnerDeclarationModel::User { .. } => {},
        OwnerDeclarationModel::Named { name } => {},
    }
}

proof fn unit_read(
    tokens: Seq<TokenModel>,
    cursor: Cursor,
    wrote: Option<Spanned<Seq<char>>>,
    rest: Parts,
)
    requires
        spell(tokens, cursor.index, false, unit_parts(wrote, rest)),
        rest is Token,
        rest->kind == TokenKind::LeftBrace,
    ensures
        unit(tokens, cursor) matches Ok((found, next)) && same_text(found, wrote) && next.pending
            == cursor.pending && spell(tokens, next.index, false, rest),
{
    word_kinds();
    match wrote {
        Some(text) => {
            let last = quote(text.value, rest);
            let parts = word("unit"@, spaced(last));
            spell_anywhere(tokens, cursor.index, false, seq![' '], parts);
            token_found(tokens, cursor, false, parts);
            let at = skip(tokens, cursor);
            spell_anywhere(tokens, step(at).index, false, seq![' '], last);
            quote_read(tokens, step(at), last, "a quoted source unit identifier"@);
        },
        None => {
            token_found(tokens, cursor, false, rest);
        },
    }
}

/// Whether a contribution block was read back as it was written.
pub open spec fn same_contribution(
    read: ContributionBlockModel,
    wrote: ContributionBlockModel,
) -> bool {
    &&& same_owner(read.owner, wrote.owner)
    &&& same_text(read.unit, wrote.unit)
    &&& read.evidence.len() == wrote.evidence.len()
    &&& forall|i: int|
        0 <= i < wrote.evidence.len() ==> same_evidence_block(#[trigger] read.evidence[i], wrote.evidence[i])
    &&& same_remarks(read.comments, wrote.comments)
    &&& same_list(read.block_comments, wrote.block_comments)
}

proof fn contribution_read(
    tokens: Seq<TokenModel>,
    at: Cursor,
    depth: nat,
    wrote: ContributionBlockModel,
    rest: Parts,
)
    requires
        writable_contribution(wrote),
        same_list(at.pending, wrote.comments.leading),
        spell(
            tokens,
            at.index,
            false,
            directive(
                TokenKind::ByDirective,
                spaced(
                    owner_parts(
                        wrote.owner,
                        unit_parts(wrote.unit, contribution_braces(depth, wrote, rest)),
                    ),
                ),
            ),
        ),
    ensures
        contribution(tokens, at) matches Ok((found, next)) && same_contribution(found, wrote)
            && next.pending == Seq::<CommentModel>::empty() && spell(
            tokens,
            next.index,
            false,
            broken(rest),
        ),
{
    word_kinds();
    let none = Seq::<EvidenceBlockModel>::empty();
    let open = contribution_braces(depth, wrote, rest);
    let place = unit_parts(wrote.unit, open);
    let who = owner_parts(wrote.owner, place);
    let head = directive(TokenKind::ByDirective, spaced(who));
    let what = "`{` to open a contribution block"@;
    let end = "`}` to close a contribution block"@;
    kind_read(tokens, taken(at), head, TokenKind::ByDirective, "`@by`"@);
    let (_, second) = expected(tokens, taken(at), TokenKind::ByDirective, "`@by`"@)->Ok_0;
    spell_anywhere(tokens, second.index, false, seq![' '], who);
    owner_read(tokens, second, wrote.owner, place);
    let (_, third) = owner(tokens, second)->Ok_0;
    unit_read(tokens, third, wrote.unit, open);
    let (_, fourth) = unit(tokens, third)->Ok_0;
    if contribution_is_empty(wrote) {
        hollow_read(tokens, fourth, at.pending, wrote.comments, rest, what, end);
        let (_, fifth) = expected(tokens, fourth, TokenKind::LeftBrace, what)->Ok_0;
        assert(evidence_blocks(tokens, fifth, none)->Ok_0.0 == none);
    } else {
        let close = close_parts(depth, rest);
        let blocks = wrote.evidence.len() > 0;
        let remarks = closing_parts(depth + 1, wrote.block_comments, blocks, close);
        let inner = evidence_blocks_parts(depth + 1, wrote.evidence, 0, remarks);
        open_read(tokens, fourth, at.pending, wrote.comments, inner, what);
        let (_, fifth) = expected(tokens, fourth, TokenKind::LeftBrace, what)->Ok_0;
        let (_, sixth) = remarked(tokens, fifth, at.pending);
        closing_first_kind(depth + 1, wrote.block_comments, blocks, close);
        close_first_kind(depth, rest);
        assert(sixth == Cursor { index: sixth.index, pending: Seq::empty() });
        let index = evidence_blocks_read(
            tokens,
            sixth,
            sixth.index,
            depth + 1,
            wrote.evidence,
            0,
            none,
            remarks,
        );
        let (found, seventh) = evidence_blocks(tokens, sixth, none)->Ok_0;
        close_read(tokens, index, depth + 1, wrote.block_comments, blocks, depth, rest, end);
        assert forall|i: int| 0 <= i < wrote.evidence.len() implies same_evidence_block(
            #[trigger] found[i],
            wrote.evidence[i],
        ) by {
            assert(none.len() + i - 0 == i);
            assert(same_evidence_block(found[none.len() + i - 0], wrote.evidence[i]));
        }
    }
}

proof fn contributions_first_kind(
    depth: nat,
    items: Seq<ContributionBlockModel>,
    from: int,
    rest: Parts,
)
    requires
        0 <= from <= items.len(),
    ensures
        first_kind(contributions_parts(depth, items, from, rest)) == (if from < items.len() {
            TokenKind::ByDirective
        } else {
            first_kind(rest)
        }),
{
    if from < items.len() {
        let item = items[from];
        let more = contributions_parts(depth, items, from + 1, rest);
        let head = directive(
            TokenKind::ByDirective,
            spaced(
                owner_parts(
                    item.owner,
                    unit_parts(item.unit, contribution_braces(depth, item, more)),
                ),
            ),
        );
        first_behind(super::format::indent(depth), head);
        leading_first_kind(depth, item.comments.leading, 0, indented(depth, head));
        first_behind(seq!['\n'], contribution_parts(depth, item, more));
    }
}

proof fn contributions_read(
    tokens: Seq<TokenModel>,
    cursor: Cursor,
    start: int,
    depth: nat,
    items: Seq<ContributionBlockModel>,
    from: int,
    before: Seq<ContributionBlockModel>,
    rest: Parts,
) -> (index: int)
    requires
        forall|i: int| 0 <= i < items.len() ==> writable_contribution(#[trigger] items[i]),
        0 <= from <= items.len(),
        first_kind(rest) != TokenKind::ByDirective,
        skip(tokens, cursor) == skip(tokens, Cursor { index: start, pending: Seq::empty() }),
        spell(tokens, start, false, broken(contributions_parts(depth, items, from, rest))),
    ensures
        spell(tokens, index, false, broken(rest)),
        contributions(tokens, cursor, before) matches Ok((found, next)) && found.len()
            == before.len() + items.len() - from && (forall|i: int|
            0 <= i < before.len() ==> found[i] == before[i]) && (forall|i: int|
            from <= i < items.len() ==> same_contribution(
                #[trigger] found[before.len() + i - from],
                items[i],
            )) && next == skip(tokens, Cursor { index, pending: Seq::empty() }),
    decreases items.len() - from,
{
    let clean = Cursor { index: start, pending: Seq::empty() };
    if from == items.len() {
        first_behind(seq!['\n'], rest);
        first_found(tokens, clean, false, broken(rest));
        start
    } else {
        let item = items[from];
        assert(writable_contribution(items[from]));
        let more = contributions_parts(depth, items, from + 1, rest);
        let head = directive(
            TokenKind::ByDirective,
            spaced(
                owner_parts(
                    item.owner,
                    unit_parts(item.unit, contribution_braces(depth, item, more)),
                ),
            ),
        );
        let led_parts = leading_parts(depth, item.comments.leading, 0, indented(depth, head));
        behind_twice(seq!['\n'], seq!['\n'], led_parts);
        let (place, read) = leading_read(
            tokens,
            clean,
            false,
            seq!['\n'] + seq!['\n'],
            depth,
            item.comments.leading,
            0,
            indented(depth, head),
        );
        assert(item.comments.leading.subrange(0, item.comments.leading.len() as int)
            =~= item.comments.leading);
        assert(Seq::<CommentModel>::empty() + read =~= read);
        let led = Cursor { index: place, pending: read };
        spell_anywhere(tokens, place, false, super::format::indent(depth), head);
        token_found(tokens, led, false, head);
        let at = skip(tokens, cursor);
        assert(at == skip(tokens, led));
        contribution_read(tokens, at, depth, item, more);
        skip_moves(tokens, cursor);
        contribution_moves(tokens, at);
        let (found, next) = contribution(tokens, at)->Ok_0;
        let grown = before.push(found);
        assert(next == Cursor { index: next.index, pending: Seq::empty() });
        let index = contributions_read(
            tokens,
            next,
            next.index,
            depth,
            items,
            from + 1,
            grown,
            rest,
        );
        let all = contributions(tokens, next, grown)->Ok_0.0;
        assert forall|i: int| 0 <= i < before.len() implies all[i] == before[i] by {
            assert(all[i] == grown[i]);
        }
        assert forall|i: int| from <= i < items.len() implies same_contribution(
            #[trigger] all[before.len() + i - from],
            items[i],
        ) by {
            if i == from {
                assert(all[before.len() as int] == grown[before.len() as int]);
            } else {
                assert(grown.len() + i - (from + 1) == before.len() + i - from);
                assert(same_contribution(all[grown.len() + i - (from + 1)], items[i]));
            }
        }
        index
    }
}

// -- Records -----------------------------------------------------------------------

/// Whether a record was read back as it was written: its properties and contributions in
/// order.
pub open spec fn same_record(read: RecordBodyModel, wrote: RecordBodyModel) -> bool {
    let properties = sorted::<Property>(wrote.properties);
    let contributions = sorted::<ContributionBlock>(wrote.contributions);
    &&& read.properties.len() == properties.len()
    &&& forall|i: int|
        0 <= i < properties.len() ==> same_property(#[trigger] read.properties[i], properties[i])
    &&& read.contributions.len() == contributions.len()
    &&& forall|i: int|
        0 <= i < contributions.len() ==> same_contribution(
            #[trigger] read.contributions[i],
            contributions[i],
        )
    &&& same_remarks(read.comments, wrote.comments)
    &&& same_list(read.block_comments, wrote.block_comments)
}

proof fn record_read(
    tokens: Seq<TokenModel>,
    cursor: Cursor,
    leading: Seq<CommentModel>,
    wrote: RecordBodyModel,
    rest: Parts,
)
    requires
        writable_record(wrote),
        same_list(leading, wrote.comments.leading),
        cursor.pending.len() == 0,
        spell(tokens, cursor.index, false, record_parts(wrote, rest)),
    ensures
        record_body(tokens, cursor, leading) matches Ok((found, next)) && same_record(found, wrote)
            && next.pending == Seq::<CommentModel>::empty() && spell(
            tokens,
            next.index,
            false,
            broken(rest),
        ),
{
    let items = sorted::<Property>(wrote.properties);
    let blocks = sorted::<ContributionBlock>(wrote.contributions);
    let none = Seq::<PropertyModel>::empty();
    let nothing = Seq::<ContributionBlockModel>::empty();
    let what = "`{` to open a record block"@;
    let end = "`}` to close a record block"@;
    sorted_length::<Property>(wrote.properties);
    sorted_length::<ContributionBlock>(wrote.contributions);
    if record_is_empty(wrote) {
        hollow_read(tokens, cursor, leading, wrote.comments, rest, what, end);
        let (_, second) = expected(tokens, cursor, TokenKind::LeftBrace, what)->Ok_0;
        let at = skip(tokens, second);
        assert(properties(tokens, second, none) == Ok::<_, super::ParseErrorModel>((none, at)));
        assert(contributions(tokens, at, nothing) == Ok::<_, super::ParseErrorModel>((nothing, at)));
    } else {
        let close = close_parts(0, rest);
        let some = wrote.contributions.len() > 0;
        let remarks = closing_parts(1, wrote.block_comments, some, close);
        let later = contributions_parts(1, blocks, 0, remarks);
        let inner = properties_parts(1, items, 0, later);
        open_read(tokens, cursor, leading, wrote.comments, inner, what);
        let (_, second) = expected(tokens, cursor, TokenKind::LeftBrace, what)->Ok_0;
        let (_, third) = remarked(tokens, second, leading);
        closing_first_kind(1, wrote.block_comments, some, close);
        close_first_kind(0, rest);
        contributions_first_kind(1, blocks, 0, remarks);
        sorted_all::<Property>(wrote.properties, |p: PropertyModel| writable_property(p));
        assert forall|i: int| 0 <= i < items.len() implies writable_property(#[trigger] items[i]) by {
            assert((|p: PropertyModel| writable_property(p))(items[i]));
        }
        sorted_all::<ContributionBlock>(
            wrote.contributions,
            |b: ContributionBlockModel| writable_contribution(b),
        );
        assert forall|i: int| 0 <= i < blocks.len() implies writable_contribution(
            #[trigger] blocks[i],
        ) by {
            assert((|b: ContributionBlockModel| writable_contribution(b))(blocks[i]));
        }
        assert(third == Cursor { index: third.index, pending: Seq::empty() });
        let first = properties_read(tokens, third, third.index, 1, items, 0, none, later);
        let (found, fourth) = properties(tokens, third, none)->Ok_0;
        skip_twice(tokens, Cursor { index: first, pending: Seq::empty() });
        let index = contributions_read(tokens, fourth, first, 1, blocks, 0, nothing, remarks);
        let (added, fifth) = contributions(tokens, fourth, nothing)->Ok_0;
        close_read(tokens, index, 1, wrote.block_comments, some, 0, rest, end);
        assert forall|i: int| 0 <= i < items.len() implies same_property(
            #[trigger] found[i],
            items[i],
        ) by {
            assert(none.len() + i - 0 == i);
            assert(same_property(found[none.len() + i - 0], items[i]));
        }
        assert forall|i: int| 0 <= i < blocks.len() implies same_contribution(
            #[trigger] added[i],
            blocks[i],
        ) by {
            assert(nothing.len() + i - 0 == i);
            assert(same_contribution(added[nothing.len() + i - 0], blocks[i]));
        }
    }
}

/// Two tokens without white space between them are next to each other.
proof fn adjacent(tokens: Seq<TokenModel>, at: Cursor, parts: Parts)
    requires
        spell(tokens, at.index, false, parts),
        past_white(tokens, at.index) == at.index,
        parts is Token,
        (*parts->rest) is Token,
        gap_of(*parts->rest).len() == 0,
    ensures
        kind(tokens, step(at)) == (*parts->rest)->kind,
        spell(tokens, at.index + 1, false, *parts->rest),
        spell(tokens, at.index + 2, false, *(*parts->rest)->rest),
{
    reveal_with_fuel(spell, 2);
}

/// What stands next is no bracket where none was written.
proof fn not_bracket(tokens: Seq<TokenModel>, cursor: Cursor, parts: Parts)
    requires
        spell(tokens, cursor.index, false, parts),
        parts is Token ==> parts->kind != TokenKind::LeftBracket,
    ensures
        kind(tokens, cursor) != TokenKind::LeftBracket,
{
}

// -- Schemas -----------------------------------------------------------------------

/// Whether a schema field was read back as it was written.
pub open spec fn same_field(read: SchemaFieldModel, wrote: SchemaFieldModel) -> bool {
    read.key.value == wrote.key.value && read.optional == wrote.optional && read.field_type.value
        == wrote.field_type.value && same_remarks(read.comments, wrote.comments)
}

/// A field type is read back. The cursor lies in front of what follows it.
proof fn type_read(tokens: Seq<TokenModel>, cursor: Cursor, wrote: FieldType, rest: Parts)
    requires
        first_kind(rest) != TokenKind::LeftBracket,
        rest is Token ==> rest->kind != TokenKind::LeftBracket,
        spell(tokens, cursor.index, false, type_parts(wrote, rest)),
    ensures
        field_type(tokens, cursor) matches Ok((found, next)) && found.value == wrote && next.pending
            == cursor.pending && spell(tokens, next.index, false, rest),
{
    word_kinds();
    wrote.scalar.name_reads_back();
    let parts = type_parts(wrote, rest);
    token_found(tokens, cursor, false, parts);
    past_white_twice(tokens, cursor.index);
    let at = skip(tokens, cursor);
    assert(type_word(here(tokens, at)) == Some(wrote.scalar.name()));
    let second = step(at);
    if wrote.array {
        let close = sign(TokenKind::RightBracket, rest);
        adjacent(tokens, at, parts);
        kind_read(
            tokens,
            step(second),
            close,
            TokenKind::RightBracket,
            "`]` to close an array type"@,
        );
        let (_, next) = expected(
            tokens,
            step(second),
            TokenKind::RightBracket,
            "`]` to close an array type"@,
        )->Ok_0;
        first_found(tokens, next, false, rest);
    } else {
        not_bracket(tokens, second, rest);
    }
}

proof fn field_read(
    tokens: Seq<TokenModel>,
    at: Cursor,
    wrote: SchemaFieldModel,
    last: bool,
    rest: Parts,
) -> (index: int)
    requires
        writable_field(wrote),
        same_list(at.pending, wrote.comments.leading),
        last ==> first_kind(rest) != TokenKind::Comma && first_kind(rest) != TokenKind::LeftBracket,
        rest is Token ==> rest->kind != TokenKind::LeftBracket,
        spell(
            tokens,
            at.index,
            false,
            word(
                wrote.key.value,
                optional_parts(
                    wrote.optional,
                    spaced(
                        type_parts(
                            wrote.field_type.value,
                            entry_parts(last, wrote.comments, rest),
                        ),
                    ),
                ),
            ),
        ),
    ensures
        spell(tokens, index, false, broken(rest)),
        schema_field(tokens, at) matches Ok(((found, separated), next)) && same_field(found, wrote)
            && separated == !last && skip(tokens, next) == skip(
            tokens,
            Cursor { index, pending: Seq::empty() },
        ) && (last ==> next == skip(tokens, Cursor { index, pending: Seq::empty() })),
{
    word_kinds();
    let end = entry_parts(last, wrote.comments, rest);
    let inner = type_parts(wrote.field_type.value, end);
    let colon = sign(TokenKind::Colon, spaced(inner));
    let mark = optional_parts(wrote.optional, spaced(inner));
    let start = taken(at);
    name_read(tokens, start, word(wrote.key.value, mark), "a field key"@);
    let (key, second) = identifier(tokens, start, "a field key"@)->Ok_0;
    token_found(tokens, second, false, mark);
    let (optional, third) = eaten(tokens, second, TokenKind::Question);
    assert(optional == wrote.optional);
    kind_read(tokens, third, colon, TokenKind::Colon, "`:` after a field key"@);
    let (_, fourth) = expected(tokens, third, TokenKind::Colon, "`:` after a field key"@)->Ok_0;
    spell_anywhere(tokens, fourth.index, false, seq![' '], inner);
    entry_first_kind(last, wrote.comments, rest);
    type_read(tokens, fourth, wrote.field_type.value, end);
    let (found, fifth) = field_type(tokens, fourth)->Ok_0;
    entry_read(tokens, fifth, at.pending, last, wrote.comments, rest)
}

proof fn fields_read(
    tokens: Seq<TokenModel>,
    cursor: Cursor,
    start: int,
    items: Seq<SchemaFieldModel>,
    from: int,
    before: Seq<SchemaFieldModel>,
    rest: Parts,
) -> (index: int)
    requires
        forall|i: int| 0 <= i < items.len() ==> writable_field(#[trigger] items[i]),
        0 <= from <= items.len(),
        ends_entries(rest),
        first_kind(rest) != TokenKind::LeftBracket,
        rest is Token ==> rest->kind != TokenKind::LeftBracket,
        skip(tokens, cursor) == skip(tokens, Cursor { index: start, pending: Seq::empty() }),
        spell(tokens, start, false, broken(fields_parts(items, from, rest))),
    ensures
        spell(tokens, index, false, broken(rest)),
        schema_fields(tokens, cursor, before) matches Ok((found, next)) && found.len()
            == before.len() + items.len() - from && (forall|i: int|
            0 <= i < before.len() ==> found[i] == before[i]) && (forall|i: int|
            from <= i < items.len() ==> same_field(
                #[trigger] found[before.len() + i - from],
                items[i],
            )) && next == skip(tokens, Cursor { index, pending: Seq::empty() }),
    decreases items.len() - from,
{
    let clean = Cursor { index: start, pending: Seq::empty() };
    if from == items.len() {
        first_behind(seq!['\n'], rest);
        first_found(tokens, clean, false, broken(rest));
        start
    } else {
        let item = items[from];
        assert(writable_field(items[from]));
        let last = from == items.len() - 1;
        let more = fields_parts(items, from + 1, rest);
        let key = word(
            item.key.value,
            optional_parts(
                item.optional,
                spaced(
                    type_parts(item.field_type.value, entry_parts(last, item.comments, more)),
                ),
            ),
        );
        let (place, read) = leading_read(
            tokens,
            clean,
            false,
            seq!['\n'],
            1,
            item.comments.leading,
            0,
            indented(1, key),
        );
        assert(item.comments.leading.subrange(0, item.comments.leading.len() as int)
            =~= item.comments.leading);
        assert(Seq::<CommentModel>::empty() + read =~= read);
        let led = Cursor { index: place, pending: read };
        spell_anywhere(tokens, place, false, super::format::indent(1), key);
        token_found(tokens, led, false, key);
        let at = skip(tokens, cursor);
        assert(at == skip(tokens, led));
        if !last {
            assert(writable_field(items[from + 1]));
            field_starts(
                items[from + 1],
                from + 1 == items.len() - 1,
                fields_parts(items, from + 2, rest),
            );
        }
        let after = field_read(tokens, at, item, last, more);
        skip_moves(tokens, cursor);
        schema_field_moves(tokens, at);
        let ((found, separated), next) = schema_field(tokens, at)->Ok_0;
        let grown = before.push(found);
        if last {
            let all = schema_fields(tokens, cursor, before)->Ok_0.0;
            assert(all == grown);
            assert forall|i: int| from <= i < items.len() implies same_field(
                #[trigger] all[before.len() + i - from],
                items[i],
            ) by {
                assert(i == from);
            }
            after
        } else {
            let index = fields_read(tokens, next, after, items, from + 1, grown, rest);
            let all = schema_fields(tokens, next, grown)->Ok_0.0;
            assert forall|i: int| 0 <= i < before.len() implies all[i] == before[i] by {
                assert(all[i] == grown[i]);
            }
            assert forall|i: int| from <= i < items.len() implies same_field(
                #[trigger] all[before.len() + i - from],
                items[i],
            ) by {
                if i == from {
                    assert(all[before.len() as int] == grown[before.len() as int]);
                } else {
                    assert(grown.len() + i - (from + 1) == before.len() + i - from);
                    assert(same_field(all[grown.len() + i - (from + 1)], items[i]));
                }
            }
            index
        }
    }
}

/// A schema field starts with a comment or a name.
proof fn field_starts(field: SchemaFieldModel, last: bool, rest: Parts)
    requires
        writable_field(field),
    ensures
        field_parts(field, last, rest) is Token,
        field_parts(field, last, rest)->kind != TokenKind::LeftBracket,
{
}

/// Whether a constraint was read back as it was written.
pub open spec fn same_constraint(
    read: Option<EndpointConstraintModel>,
    wrote: Option<EndpointConstraintModel>,
) -> bool {
    match (read, wrote) {
        (Some(a), Some(b)) => a.source.value == b.source.value && a.target.value == b.target.value,
        (None, None) => true,
        _ => false,
    }
}

proof fn constraint_read(
    tokens: Seq<TokenModel>,
    cursor: Cursor,
    wrote: Option<EndpointConstraintModel>,
    rest: Parts,
)
    requires
        wrote matches Some(pair) ==> nameable(pair.source.value) && nameable(pair.target.value),
        rest is Token,
        rest->kind == TokenKind::LeftBrace,
        spell(tokens, cursor.index, false, constraint_parts(wrote, rest)),
    ensures
        constraint(tokens, cursor) matches Ok((found, next)) && same_constraint(found, wrote)
            && next.pending == cursor.pending && spell(tokens, next.index, false, rest),
{
    match wrote {
        Some(pair) => {
            let p1 = sign(TokenKind::RightParen, rest);
            let p2 = word(pair.target.value, p1);
            let p3 = sign(TokenKind::Arrow, spaced(p2));
            let p4 = word(pair.source.value, spaced(p3));
            let p5 = sign(TokenKind::LeftParen, p4);
            spell_anywhere(tokens, cursor.index, false, seq![' '], p5);
            token_found(tokens, cursor, false, p5);
            let at = skip(tokens, cursor);
            name_read(tokens, step(at), p4, "the source schema name"@);
            let (_, second) = identifier(tokens, step(at), "the source schema name"@)->Ok_0;
            spell_anywhere(tokens, second.index, false, seq![' '], p3);
            kind_read(tokens, second, p3, TokenKind::Arrow, "`->` between the endpoint schemas"@);
            let (_, third) = expected(
                tokens,
                second,
                TokenKind::Arrow,
                "`->` between the endpoint schemas"@,
            )->Ok_0;
            spell_anywhere(tokens, third.index, false, seq![' '], p2);
            name_read(tokens, third, p2, "the target schema name"@);
            let (_, fourth) = identifier(tokens, third, "the target schema name"@)->Ok_0;
            kind_read(tokens, fourth, p1, TokenKind::RightParen, "`)` after the endpoint schemas"@);
        },
        None => {
            token_found(tokens, cursor, false, rest);
        },
    }
}

/// Whether a schema was read back as it was written: its fields in order.
pub open spec fn same_schema(read: SchemaDeclarationModel, wrote: SchemaDeclarationModel) -> bool {
    let fields = sorted::<SchemaField>(wrote.fields);
    &&& read.name.value == wrote.name.value
    &&& same_constraint(read.endpoints, wrote.endpoints)
    &&& read.fields.len() == fields.len()
    &&& forall|i: int| 0 <= i < fields.len() ==> same_field(#[trigger] read.fields[i], fields[i])
    &&& same_remarks(read.comments, wrote.comments)
    &&& same_list(read.block_comments, wrote.block_comments)
}

/// The head of a schema.
spec fn schema_head_parts(wrote: SchemaDeclarationModel, rest: Parts) -> Parts {
    word(
        "schema"@,
        spaced(
            word(wrote.name.value, constraint_parts(wrote.endpoints, schema_braces(wrote, rest))),
        ),
    )
}

proof fn schema_read(tokens: Seq<TokenModel>, at: Cursor, wrote: SchemaDeclarationModel, rest: Parts)
    requires
        writable_schema(wrote),
        same_list(at.pending, wrote.comments.leading),
        spell(tokens, at.index, false, schema_head_parts(wrote, rest)),
    ensures
        schema(tokens, at) matches Ok((found, next)) && same_schema(found, wrote) && next.pending
            == Seq::<CommentModel>::empty() && spell(tokens, next.index, false, broken(rest)),
{
    word_kinds();
    let fields = sorted::<SchemaField>(wrote.fields);
    let none = Seq::<SchemaFieldModel>::empty();
    let open = schema_braces(wrote, rest);
    let ends = constraint_parts(wrote.endpoints, open);
    let name = word(wrote.name.value, ends);
    let head = word("schema"@, spaced(name));
    let what = "`{` to open a field block"@;
    let end = "`}` to close a field block"@;
    sorted_length::<SchemaField>(wrote.fields);
    kind_read(tokens, taken(at), head, TokenKind::Keyword(Keyword::Schema), "`schema`"@);
    let (_, second) = expected(
        tokens,
        taken(at),
        TokenKind::Keyword(Keyword::Schema),
        "`schema`"@,
    )->Ok_0;
    spell_anywhere(tokens, second.index, false, seq![' '], name);
    name_read(tokens, second, name, "a schema name"@);
    let (_, third) = identifier(tokens, second, "a schema name"@)->Ok_0;
    constraint_read(tokens, third, wrote.endpoints, open);
    let (_, fourth) = constraint(tokens, third)->Ok_0;
    if schema_is_empty(wrote) {
        hollow_read(tokens, fourth, at.pending, wrote.comments, rest, what, end);
        let (_, fifth) = expected(tokens, fourth, TokenKind::LeftBrace, what)->Ok_0;
        assert(schema_fields(tokens, fifth, none)->Ok_0.0 == none);
    } else {
        let close = close_parts(0, rest);
        let remarks = leading_parts(1, wrote.block_comments, 0, close);
        let inner = fields_parts(fields, 0, remarks);
        open_read(tokens, fourth, at.pending, wrote.comments, inner, what);
        let (_, fifth) = expected(tokens, fourth, TokenKind::LeftBrace, what)->Ok_0;
        let (_, sixth) = remarked(tokens, fifth, at.pending);
        sorted_all::<SchemaField>(wrote.fields, |f: SchemaFieldModel| writable_field(f));
        assert forall|i: int| 0 <= i < fields.len() implies writable_field(#[trigger] fields[i]) by {
            assert((|f: SchemaFieldModel| writable_field(f))(fields[i]));
        }
        leading_first_kind(1, wrote.block_comments, 0, close);
        close_first_kind(0, rest);
        assert(sixth == Cursor { index: sixth.index, pending: Seq::empty() });
        let index = fields_read(tokens, sixth, sixth.index, fields, 0, none, remarks);
        let (found, seventh) = schema_fields(tokens, sixth, none)->Ok_0;
        assert(closing_parts(1, wrote.block_comments, false, close) == remarks);
        close_read(tokens, index, 1, wrote.block_comments, false, 0, rest, end);
        assert forall|i: int| 0 <= i < fields.len() implies same_field(
            #[trigger] found[i],
            fields[i],
        ) by {
            assert(none.len() + i - 0 == i);
            assert(same_field(found[none.len() + i - 0], fields[i]));
        }
    }
}

// -- Nodes, edges and links --------------------------------------------------------

proof fn more_names_read(
    tokens: Seq<TokenModel>,
    cursor: Cursor,
    items: Seq<Spanned<Seq<char>>>,
    from: int,
    before: Seq<Spanned<Seq<char>>>,
    rest: Parts,
)
    requires
        forall|i: int| 0 <= i < items.len() ==> nameable((#[trigger] items[i]).value),
        0 < from <= items.len(),
        rest is Token,
        rest->kind == TokenKind::LeftBrace,
        spell(
            tokens,
            cursor.index,
            false,
            if from == items.len() {
                rest
            } else {
                sign(TokenKind::Comma, spaced(names_parts(items, from, rest)))
            },
        ),
    ensures
        more_schemas(tokens, cursor, before) matches Ok((found, next)) && found.len()
            == before.len() + items.len() - from && (forall|i: int|
            0 <= i < before.len() ==> found[i] == before[i]) && (forall|i: int|
            from <= i < items.len() ==> (#[trigger] found[before.len() + i - from]).value
                == items[i].value) && next.pending == cursor.pending && spell(
            tokens,
            next.index,
            false,
            rest,
        ),
    decreases items.len() - from,
{
    if from == items.len() {
        token_found(tokens, cursor, false, rest);
    } else {
        assert(nameable(items[from].value));
        let list = names_parts(items, from, rest);
        let comma = sign(TokenKind::Comma, spaced(list));
        token_found(tokens, cursor, false, comma);
        let (separated, next) = eaten(tokens, cursor, TokenKind::Comma);
        spell_anywhere(tokens, next.index, false, seq![' '], list);
        name_read(tokens, next, list, "a schema name"@);
        let (name, last) = identifier(tokens, next, "a schema name"@)->Ok_0;
        skip_moves(tokens, cursor);
        identifier_moves(tokens, next, "a schema name"@);
        let grown = before.push(name);
        more_names_read(tokens, last, items, from + 1, grown, rest);
        let all = more_schemas(tokens, last, grown)->Ok_0.0;
        assert(more_schemas(tokens, cursor, before) == more_schemas(tokens, last, grown));
        assert forall|i: int| 0 <= i < before.len() implies all[i] == before[i] by {
            assert(all[i] == grown[i]);
        }
        assert forall|i: int| from <= i < items.len() implies (
        #[trigger] all[before.len() + i - from]).value == items[i].value by {
            if i == from {
                assert(all[before.len() as int] == grown[before.len() as int]);
            } else {
                assert(grown.len() + i - (from + 1) == before.len() + i - from);
                assert(all[grown.len() + i - (from + 1)].value == items[i].value);
            }
        }
    }
}

/// Whether a node was read back as it was written: its schemas in order.
pub open spec fn same_node(read: NodeDeclarationModel, wrote: NodeDeclarationModel) -> bool {
    let schemas = sorted::<Spanned<String>>(wrote.schemas);
    &&& read.name.value == wrote.name.value
    &&& read.schemas.len() == schemas.len()
    &&& forall|i: int| 0 <= i < schemas.len() ==> (#[trigger] read.schemas[i]).value == schemas[i].value
    &&& same_record(read.record, wrote.record)
}

/// The head of a node.
spec fn node_head_parts(wrote: NodeDeclarationModel, rest: Parts) -> Parts {
    word(
        "node"@,
        spaced(
            word(
                wrote.name.value,
                sign(
                    TokenKind::Colon,
                    spaced(
                        names_parts(
                            sorted::<Spanned<String>>(wrote.schemas),
                            0,
                            record_parts(wrote.record, rest),
                        ),
                    ),
                ),
            ),
        ),
    )
}

proof fn node_read(tokens: Seq<TokenModel>, at: Cursor, wrote: NodeDeclarationModel, rest: Parts)
    requires
        writable_node(wrote),
        same_list(at.pending, wrote.record.comments.leading),
        spell(tokens, at.index, false, node_head_parts(wrote, rest)),
    ensures
        node(tokens, at) matches Ok((found, next)) && same_node(found, wrote) && next.pending
            == Seq::<CommentModel>::empty() && spell(tokens, next.index, false, broken(rest)),
{
    word_kinds();
    let schemas = sorted::<Spanned<String>>(wrote.schemas);
    sorted_all::<Spanned<String>>(wrote.schemas, |s: Spanned<Seq<char>>| nameable(s.value));
    assert forall|i: int| 0 <= i < schemas.len() implies nameable((#[trigger] schemas[i]).value) by {
        assert((|s: Spanned<Seq<char>>| nameable(s.value))(schemas[i]));
    }
    let record = record_parts(wrote.record, rest);
    let list = names_parts(schemas, 0, record);
    let colon = sign(TokenKind::Colon, spaced(list));
    let name = word(wrote.name.value, colon);
    let head = word("node"@, spaced(name));
    kind_read(tokens, taken(at), head, TokenKind::Keyword(Keyword::Node), "`node`"@);
    let (_, second) = expected(
        tokens,
        taken(at),
        TokenKind::Keyword(Keyword::Node),
        "`node`"@,
    )->Ok_0;
    spell_anywhere(tokens, second.index, false, seq![' '], name);
    name_read(tokens, second, name, "a node name"@);
    let (_, third) = identifier(tokens, second, "a node name"@)->Ok_0;
    kind_read(tokens, third, colon, TokenKind::Colon, "`:` before the schema names"@);
    let (_, fourth) = expected(
        tokens,
        third,
        TokenKind::Colon,
        "`:` before the schema names"@,
    )->Ok_0;
    assert(nameable(schemas[0].value));
    spell_anywhere(tokens, fourth.index, false, seq![' '], list);
    name_read(tokens, fourth, list, "a schema name"@);
    let (first, fifth) = identifier(tokens, fourth, "a schema name"@)->Ok_0;
    more_names_read(tokens, fifth, schemas, 1, seq![first], record);
    let (found, sixth) = more_schemas(tokens, fifth, seq![first])->Ok_0;
    assert forall|i: int| 0 <= i < schemas.len() implies (#[trigger] found[i]).value
        == schemas[i].value by {
        if i == 0 {
            assert(found[0] == seq![first][0]);
        } else {
            assert(seq![first].len() + i - 1 == i);
            assert(found[seq![first].len() + i - 1].value == schemas[i].value);
        }
    }
    record_read(tokens, sixth, at.pending, wrote.record, rest);
}

/// Whether an endpoint was read back as it was written.
pub open spec fn same_endpoint(read: EndpointModel, wrote: EndpointModel) -> bool {
    match (read, wrote) {
        (EndpointModel::Local(a), EndpointModel::Local(b)) => a.value == b.value,
        (
            EndpointModel::Aliased { alias: a, name: b },
            EndpointModel::Aliased { alias, name },
        ) => a.value == alias.value && b.value == name.value,
        (
            EndpointModel::Locator { locator: a, name: b },
            EndpointModel::Locator { locator, name },
        ) => a.value == locator.value && b.value == name.value,
        _ => false,
    }
}

proof fn endpoint_read(tokens: Seq<TokenModel>, cursor: Cursor, wrote: EndpointModel, rest: Parts)
    requires
        writable_endpoint(wrote),
        rest is Token,
        !(rest->kind is Trivia),
        rest->kind != TokenKind::ColonColon,
        spell(tokens, cursor.index, false, endpoint_parts(wrote, rest)),
    ensures
        endpoint(tokens, cursor) matches Ok((found, next)) && same_endpoint(found, wrote)
            && next.pending == cursor.pending && spell(tokens, next.index, false, rest),
{
    let parts = endpoint_parts(wrote, rest);
    token_found(tokens, cursor, false, parts);
    let at = skip(tokens, cursor);
    match wrote {
        EndpointModel::Local(name) => {
            name_read(tokens, at, parts, "an endpoint"@);
            let (_, next) = identifier(tokens, at, "an endpoint"@)->Ok_0;
            token_found(tokens, next, false, rest);
        },
        EndpointModel::Aliased { alias, name } => {
            let last = word(name.value, rest);
            name_read(tokens, at, parts, "an endpoint"@);
            let (_, next) = identifier(tokens, at, "an endpoint"@)->Ok_0;
            token_found(tokens, next, false, sign(TokenKind::ColonColon, last));
            let second = skip(tokens, next);
            name_read(tokens, step(second), last, "a declaration name"@);
        },
        EndpointModel::Locator { locator, name } => {
            let last = word(name.value, rest);
            let scope = sign(TokenKind::ColonColon, last);
            quote_read(tokens, at, parts, "a locator"@);
            let (_, second) = quoted(tokens, at, "a locator"@)->Ok_0;
            kind_read(tokens, second, scope, TokenKind::ColonColon, "`::` after a locator"@);
            let (_, third) = expected(
                tokens,
                second,
                TokenKind::ColonColon,
                "`::` after a locator"@,
            )->Ok_0;
            name_read(tokens, third, last, "a declaration name"@);
        },
    }
}

/// Whether an edge was read back as it was written.
pub open spec fn same_edge(read: EdgeDeclarationModel, wrote: EdgeDeclarationModel) -> bool {
    same_endpoint(read.source, wrote.source) && same_endpoint(read.target, wrote.target)
        && read.relation.value == wrote.relation.value && same_record(read.record, wrote.record)
}

/// The head of an edge.
spec fn edge_head_parts(wrote: EdgeDeclarationModel, rest: Parts) -> Parts {
    word(
        "edge"@,
        spaced(
            endpoint_parts(
                wrote.source,
                spaced(
                    sign(
                        TokenKind::Arrow,
                        spaced(
                            endpoint_parts(
                                wrote.target,
                                spaced(
                                    sign(
                                        TokenKind::Colon,
                                        word(
                                            wrote.relation.value,
                                            record_parts(wrote.record, rest),
                                        ),
                                    ),
                                ),
                            ),
                        ),
                    ),
                ),
            ),
        ),
    )
}

proof fn edge_read(tokens: Seq<TokenModel>, at: Cursor, wrote: EdgeDeclarationModel, rest: Parts)
    requires
        writable_edge(wrote),
        same_list(at.pending, wrote.record.comments.leading),
        spell(tokens, at.index, false, edge_head_parts(wrote, rest)),
    ensures
        edge(tokens, at) matches Ok((found, next)) && same_edge(found, wrote) && next.pending
            == Seq::<CommentModel>::empty() && spell(tokens, next.index, false, broken(rest)),
{
    word_kinds();
    let record = record_parts(wrote.record, rest);
    let relation = word(wrote.relation.value, record);
    let colon = sign(TokenKind::Colon, relation);
    let target = endpoint_parts(wrote.target, spaced(colon));
    let arrow = sign(TokenKind::Arrow, spaced(target));
    let source = endpoint_parts(wrote.source, spaced(arrow));
    let head = word("edge"@, spaced(source));
    kind_read(tokens, taken(at), head, TokenKind::Keyword(Keyword::Edge), "`edge`"@);
    let (_, second) = expected(
        tokens,
        taken(at),
        TokenKind::Keyword(Keyword::Edge),
        "`edge`"@,
    )->Ok_0;
    spell_anywhere(tokens, second.index, false, seq![' '], source);
    endpoint_read(tokens, second, wrote.source, spaced(arrow));
    let (_, third) = endpoint(tokens, second)->Ok_0;
    spell_anywhere(tokens, third.index, false, seq![' '], arrow);
    kind_read(tokens, third, arrow, TokenKind::Arrow, "`->` between the endpoints"@);
    let (_, fourth) = expected(
        tokens,
        third,
        TokenKind::Arrow,
        "`->` between the endpoints"@,
    )->Ok_0;
    spell_anywhere(tokens, fourth.index, false, seq![' '], target);
    endpoint_read(tokens, fourth, wrote.target, spaced(colon));
    let (_, fifth) = endpoint(tokens, fourth)->Ok_0;
    spell_anywhere(tokens, fifth.index, false, seq![' '], colon);
    kind_read(tokens, fifth, colon, TokenKind::Colon, "`:` before a relation name"@);
    let (_, sixth) = expected(
        tokens,
        fifth,
        TokenKind::Colon,
        "`:` before a relation name"@,
    )->Ok_0;
    name_read(tokens, sixth, relation, "a relation name"@);
    let (_, seventh) = identifier(tokens, sixth, "a relation name"@)->Ok_0;
    record_read(tokens, seventh, at.pending, wrote.record, rest);
}

/// Whether a link was read back as it was written.
pub open spec fn same_link(read: LinkDeclarationModel, wrote: LinkDeclarationModel) -> bool {
    read.source.value == wrote.source.value && same_text(read.alias, wrote.alias) && same_remarks(
        read.comments,
        wrote.comments,
    )
}

/// The head of a link.
spec fn link_head_parts(wrote: LinkDeclarationModel, rest: Parts) -> Parts {
    directive(
        TokenKind::LinkDirective,
        spaced(
            quote(
                wrote.source.value,
                alias_parts(wrote.alias, trailing_parts(wrote.comments, rest)),
            ),
        ),
    )
}

/// A link is read back. What follows it starts at the index that comes back.
proof fn link_read(
    tokens: Seq<TokenModel>,
    at: Cursor,
    wrote: LinkDeclarationModel,
    rest: Parts,
) -> (index: int)
    requires
        writable_link(wrote),
        same_list(at.pending, wrote.comments.leading),
        past_white(tokens, at.index) == at.index,
        first_kind(rest) != TokenKind::Keyword(Keyword::As),
        spell(tokens, at.index, false, link_head_parts(wrote, rest)),
    ensures
        spell(tokens, index, false, broken(rest)),
        link(tokens, at) matches Ok((found, next)) && same_link(found, wrote) && skip(tokens, next)
            == skip(tokens, Cursor { index, pending: Seq::empty() }),
{
    word_kinds();
    let end = trailing_parts(wrote.comments, rest);
    let alias = alias_parts(wrote.alias, end);
    let source = quote(wrote.source.value, alias);
    let start = step(taken(at));
    spell_anywhere(tokens, start.index, false, seq![' '], source);
    quote_read(tokens, start, source, "a quoted link locator"@);
    let (_, second) = quoted(tokens, start, "a quoted link locator"@)->Ok_0;
    assert(second.pending =~= Seq::<CommentModel>::empty());
    match wrote.alias {
        Some(name) => {
            let last = word(name.value, end);
            let as_part = word("as"@, spaced(last));
            spell_anywhere(tokens, second.index, false, seq![' '], as_part);
            token_found(tokens, second, false, as_part);
            let third = skip(tokens, second);
            spell_anywhere(tokens, step(third).index, false, seq![' '], last);
            name_read(tokens, step(third), last, "a link alias"@);
            let (_, fourth) = identifier(tokens, step(third), "a link alias"@)->Ok_0;
            remarks_read(tokens, fourth, at.pending, wrote.comments, rest);
            remarked(tokens, fourth, at.pending).1.index
        },
        None => {
            entry_first_kind(true, wrote.comments, rest);
            first_found(tokens, second, false, end);
            remarks_read(tokens, second, at.pending, wrote.comments, rest);
            remarked(tokens, second, at.pending).1.index
        },
    }
}

// -- Files -------------------------------------------------------------------------

proof fn links_first_kind(items: Seq<LinkDeclarationModel>, from: int, rest: Parts)
    requires
        0 <= from <= items.len(),
    ensures
        first_kind(links_parts(items, from, rest)) == (if from < items.len() {
            TokenKind::LinkDirective
        } else {
            first_kind(rest)
        }),
{
    if from < items.len() {
        let head = link_head_parts(items[from], links_parts(items, from + 1, rest));
        first_behind(super::format::indent(0), head);
        leading_first_kind(0, items[from].comments.leading, 0, indented(0, head));
    }
}

proof fn links_read(
    tokens: Seq<TokenModel>,
    cursor: Cursor,
    start: int,
    gap: Seq<char>,
    items: Seq<LinkDeclarationModel>,
    from: int,
    before: Seq<LinkDeclarationModel>,
    rest: Parts,
) -> (out: (int, Seq<char>))
    requires
        forall|i: int| 0 <= i < items.len() ==> writable_link(#[trigger] items[i]),
        0 <= from <= items.len(),
        first_kind(rest) != TokenKind::LinkDirective,
        first_kind(rest) != TokenKind::Keyword(Keyword::As),
        skip(tokens, cursor) == skip(tokens, Cursor { index: start, pending: Seq::empty() }),
        spell(tokens, start, false, behind(gap, links_parts(items, from, rest))),
    ensures
        spell(tokens, out.0, false, behind(out.1, rest)),
        links(tokens, cursor, before) matches Ok((found, next)) && found.len() == before.len()
            + items.len() - from && (forall|i: int| 0 <= i < before.len() ==> found[i] == before[i])
            && (forall|i: int|
            from <= i < items.len() ==> same_link(
                #[trigger] found[before.len() + i - from],
                items[i],
            )) && next == skip(tokens, Cursor { index: out.0, pending: Seq::empty() }),
    decreases items.len() - from,
{
    let clean = Cursor { index: start, pending: Seq::empty() };
    if from == items.len() {
        first_behind(gap, rest);
        first_found(tokens, clean, false, behind(gap, rest));
        (start, gap)
    } else {
        let item = items[from];
        assert(writable_link(items[from]));
        let more = links_parts(items, from + 1, rest);
        let head = link_head_parts(item, more);
        let (place, read) = leading_read(
            tokens,
            clean,
            false,
            gap,
            0,
            item.comments.leading,
            0,
            indented(0, head),
        );
        assert(item.comments.leading.subrange(0, item.comments.leading.len() as int)
            =~= item.comments.leading);
        assert(Seq::<CommentModel>::empty() + read =~= read);
        let led = Cursor { index: place, pending: read };
        spell_anywhere(tokens, place, false, super::format::indent(0), head);
        token_found(tokens, led, false, head);
        past_white_twice(tokens, place);
        let at = skip(tokens, cursor);
        assert(at == skip(tokens, led));
        links_first_kind(items, from + 1, rest);
        let after = link_read(tokens, at, item, more);
        skip_moves(tokens, cursor);
        link_moves(tokens, at);
        let (found, next) = link(tokens, at)->Ok_0;
        let grown = before.push(found);
        let out = links_read(tokens, next, after, seq!['\n'], items, from + 1, grown, rest);
        let all = links(tokens, next, grown)->Ok_0.0;
        assert(links(tokens, cursor, before) == links(tokens, next, grown));
        assert forall|i: int| 0 <= i < before.len() implies all[i] == before[i] by {
            assert(all[i] == grown[i]);
        }
        assert forall|i: int| from <= i < items.len() implies same_link(
            #[trigger] all[before.len() + i - from],
            items[i],
        ) by {
            if i == from {
                assert(all[before.len() as int] == grown[before.len() as int]);
            } else {
                assert(grown.len() + i - (from + 1) == before.len() + i - from);
                assert(same_link(all[grown.len() + i - (from + 1)], items[i]));
            }
        }
        out
    }
}

/// The declarations from a cursor on are those of a schema and then those behind it.
proof fn schemas_read(
    tokens: Seq<TokenModel>,
    cursor: Cursor,
    start: int,
    gap: Seq<char>,
    items: Seq<SchemaDeclarationModel>,
    from: int,
    before: Declarations,
    rest: Parts,
) -> (out: (Cursor, int, Seq<char>, Declarations))
    requires
        forall|i: int| 0 <= i < items.len() ==> writable_schema(#[trigger] items[i]),
        0 <= from <= items.len(),
        skip(tokens, cursor) == skip(tokens, Cursor { index: start, pending: Seq::empty() }),
        spell(tokens, start, false, behind(gap, schemas_parts(items, from, rest))),
    ensures
        declarations(tokens, cursor, before) == declarations(tokens, out.0, out.3),
        skip(tokens, out.0) == skip(tokens, Cursor { index: out.1, pending: Seq::empty() }),
        spell(tokens, out.1, false, behind(out.2, rest)),
        out.3.nodes == before.nodes,
        out.3.edges == before.edges,
        out.3.schemas.len() == before.schemas.len() + items.len() - from,
        forall|i: int| 0 <= i < before.schemas.len() ==> out.3.schemas[i] == before.schemas[i],
        forall|i: int|
            from <= i < items.len() ==> same_schema(
                #[trigger] out.3.schemas[before.schemas.len() + i - from],
                items[i],
            ),
    decreases items.len() - from,
{
    let clean = Cursor { index: start, pending: Seq::empty() };
    if from == items.len() {
        (cursor, start, gap, before)
    } else {
        word_kinds();
        let item = items[from];
        assert(writable_schema(items[from]));
        let more = schemas_parts(items, from + 1, rest);
        let head = schema_head_parts(item, more);
        behind_twice(
            gap,
            seq!['\n'],
            leading_parts(0, item.comments.leading, 0, indented(0, head)),
        );
        let (place, read) = leading_read(
            tokens,
            clean,
            false,
            gap + seq!['\n'],
            0,
            item.comments.leading,
            0,
            indented(0, head),
        );
        assert(item.comments.leading.subrange(0, item.comments.leading.len() as int)
            =~= item.comments.leading);
        assert(Seq::<CommentModel>::empty() + read =~= read);
        let led = Cursor { index: place, pending: read };
        spell_anywhere(tokens, place, false, super::format::indent(0), head);
        token_found(tokens, led, false, head);
        let at = skip(tokens, cursor);
        assert(at == skip(tokens, led));
        schema_read(tokens, at, item, more);
        let (found, next) = schema(tokens, at)->Ok_0;
        let grown = Declarations {
            schemas: before.schemas.push(found),
            order: before.order.push(
                super::DeclarationRef::Schema(before.schemas.len() as usize),
            ),
            ..before
        };
        skip_moves(tokens, cursor);
        schema_moves(tokens, at);
        assert(declarations(tokens, cursor, before) == declarations(tokens, next, grown));
        assert(next == Cursor { index: next.index, pending: Seq::empty() });
        let out = schemas_read(
            tokens,
            next,
            next.index,
            seq!['\n'],
            items,
            from + 1,
            grown,
            rest,
        );
        assert forall|i: int| 0 <= i < before.schemas.len() implies out.3.schemas[i]
            == before.schemas[i] by {
            assert(out.3.schemas[i] == grown.schemas[i]);
        }
        assert forall|i: int| from <= i < items.len() implies same_schema(
            #[trigger] out.3.schemas[before.schemas.len() + i - from],
            items[i],
        ) by {
            if i == from {
                assert(out.3.schemas[before.schemas.len() as int]
                    == grown.schemas[before.schemas.len() as int]);
            } else {
                assert(grown.schemas.len() + i - (from + 1) == before.schemas.len() + i - from);
                assert(same_schema(out.3.schemas[grown.schemas.len() + i - (from + 1)], items[i]));
            }
        }
        out
    }
}

/// The declarations from a cursor on are those of a node and then those behind it.
proof fn nodes_read(
    tokens: Seq<TokenModel>,
    cursor: Cursor,
    start: int,
    gap: Seq<char>,
    items: Seq<NodeDeclarationModel>,
    from: int,
    before: Declarations,
    rest: Parts,
) -> (out: (Cursor, int, Seq<char>, Declarations))
    requires
        forall|i: int| 0 <= i < items.len() ==> writable_node(#[trigger] items[i]),
        0 <= from <= items.len(),
        skip(tokens, cursor) == skip(tokens, Cursor { index: start, pending: Seq::empty() }),
        spell(tokens, start, false, behind(gap, nodes_parts(items, from, rest))),
    ensures
        declarations(tokens, cursor, before) == declarations(tokens, out.0, out.3),
        skip(tokens, out.0) == skip(tokens, Cursor { index: out.1, pending: Seq::empty() }),
        spell(tokens, out.1, false, behind(out.2, rest)),
        out.3.schemas == before.schemas,
        out.3.edges == before.edges,
        out.3.nodes.len() == before.nodes.len() + items.len() - from,
        forall|i: int| 0 <= i < before.nodes.len() ==> out.3.nodes[i] == before.nodes[i],
        forall|i: int|
            from <= i < items.len() ==> same_node(
                #[trigger] out.3.nodes[before.nodes.len() + i - from],
                items[i],
            ),
    decreases items.len() - from,
{
    let clean = Cursor { index: start, pending: Seq::empty() };
    if from == items.len() {
        (cursor, start, gap, before)
    } else {
        word_kinds();
        let item = items[from];
        assert(writable_node(items[from]));
        let leading = item.record.comments.leading;
        let more = nodes_parts(items, from + 1, rest);
        let head = node_head_parts(item, more);
        behind_twice(gap, seq!['\n'], leading_parts(0, leading, 0, indented(0, head)));
        let (place, read) = leading_read(
            tokens,
            clean,
            false,
            gap + seq!['\n'],
            0,
            leading,
            0,
            indented(0, head),
        );
        assert(leading.subrange(0, leading.len() as int) =~= leading);
        assert(Seq::<CommentModel>::empty() + read =~= read);
        let led = Cursor { index: place, pending: read };
        spell_anywhere(tokens, place, false, super::format::indent(0), head);
        token_found(tokens, led, false, head);
        let at = skip(tokens, cursor);
        assert(at == skip(tokens, led));
        node_read(tokens, at, item, more);
        let (found, next) = node(tokens, at)->Ok_0;
        let grown = Declarations {
            nodes: before.nodes.push(found),
            order: before.order.push(super::DeclarationRef::Node(before.nodes.len() as usize)),
            ..before
        };
        skip_moves(tokens, cursor);
        node_moves(tokens, at);
        assert(declarations(tokens, cursor, before) == declarations(tokens, next, grown));
        assert(next == Cursor { index: next.index, pending: Seq::empty() });
        let out = nodes_read(tokens, next, next.index, seq!['\n'], items, from + 1, grown, rest);
        assert forall|i: int| 0 <= i < before.nodes.len() implies out.3.nodes[i]
            == before.nodes[i] by {
            assert(out.3.nodes[i] == grown.nodes[i]);
        }
        assert forall|i: int| from <= i < items.len() implies same_node(
            #[trigger] out.3.nodes[before.nodes.len() + i - from],
            items[i],
        ) by {
            if i == from {
                assert(out.3.nodes[before.nodes.len() as int]
                    == grown.nodes[before.nodes.len() as int]);
            } else {
                assert(grown.nodes.len() + i - (from + 1) == before.nodes.len() + i - from);
                assert(same_node(out.3.nodes[grown.nodes.len() + i - (from + 1)], items[i]));
            }
        }
        out
    }
}

/// The declarations from a cursor on are those of an edge and then those behind it.
proof fn edges_read(
    tokens: Seq<TokenModel>,
    cursor: Cursor,
    start: int,
    gap: Seq<char>,
    items: Seq<EdgeDeclarationModel>,
    from: int,
    before: Declarations,
    rest: Parts,
) -> (out: (Cursor, int, Seq<char>, Declarations))
    requires
        forall|i: int| 0 <= i < items.len() ==> writable_edge(#[trigger] items[i]),
        0 <= from <= items.len(),
        skip(tokens, cursor) == skip(tokens, Cursor { index: start, pending: Seq::empty() }),
        spell(tokens, start, false, behind(gap, edges_parts(items, from, rest))),
    ensures
        declarations(tokens, cursor, before) == declarations(tokens, out.0, out.3),
        skip(tokens, out.0) == skip(tokens, Cursor { index: out.1, pending: Seq::empty() }),
        spell(tokens, out.1, false, behind(out.2, rest)),
        out.3.schemas == before.schemas,
        out.3.nodes == before.nodes,
        out.3.edges.len() == before.edges.len() + items.len() - from,
        forall|i: int| 0 <= i < before.edges.len() ==> out.3.edges[i] == before.edges[i],
        forall|i: int|
            from <= i < items.len() ==> same_edge(
                #[trigger] out.3.edges[before.edges.len() + i - from],
                items[i],
            ),
    decreases items.len() - from,
{
    let clean = Cursor { index: start, pending: Seq::empty() };
    if from == items.len() {
        (cursor, start, gap, before)
    } else {
        word_kinds();
        let item = items[from];
        assert(writable_edge(items[from]));
        let leading = item.record.comments.leading;
        let more = edges_parts(items, from + 1, rest);
        let head = edge_head_parts(item, more);
        behind_twice(gap, seq!['\n'], leading_parts(0, leading, 0, indented(0, head)));
        let (place, read) = leading_read(
            tokens,
            clean,
            false,
            gap + seq!['\n'],
            0,
            leading,
            0,
            indented(0, head),
        );
        assert(leading.subrange(0, leading.len() as int) =~= leading);
        assert(Seq::<CommentModel>::empty() + read =~= read);
        let led = Cursor { index: place, pending: read };
        spell_anywhere(tokens, place, false, super::format::indent(0), head);
        token_found(tokens, led, false, head);
        let at = skip(tokens, cursor);
        assert(at == skip(tokens, led));
        edge_read(tokens, at, item, more);
        let (found, next) = edge(tokens, at)->Ok_0;
        let grown = Declarations {
            edges: before.edges.push(found),
            order: before.order.push(super::DeclarationRef::Edge(before.edges.len() as usize)),
            ..before
        };
        skip_moves(tokens, cursor);
        edge_moves(tokens, at);
        assert(declarations(tokens, cursor, before) == declarations(tokens, next, grown));
        assert(next == Cursor { index: next.index, pending: Seq::empty() });
        let out = edges_read(tokens, next, next.index, seq!['\n'], items, from + 1, grown, rest);
        assert forall|i: int| 0 <= i < before.edges.len() implies out.3.edges[i]
            == before.edges[i] by {
            assert(out.3.edges[i] == grown.edges[i]);
        }
        assert forall|i: int| from <= i < items.len() implies same_edge(
            #[trigger] out.3.edges[before.edges.len() + i - from],
            items[i],
        ) by {
            if i == from {
                assert(out.3.edges[before.edges.len() as int]
                    == grown.edges[before.edges.len() as int]);
            } else {
                assert(grown.edges.len() + i - (from + 1) == before.edges.len() + i - from);
                assert(same_edge(out.3.edges[grown.edges.len() + i - (from + 1)], items[i]));
            }
        }
        out
    }
}

/// Whether a file was read back as it was written: its links, schemas, nodes and edges in
/// order.
pub open spec fn same_file(read: SourceFileModel, wrote: SourceFileModel) -> bool {
    let links = sorted::<LinkDeclaration>(wrote.links);
    let schemas = sorted::<SchemaDeclaration>(wrote.schemas);
    let nodes = sorted::<NodeDeclaration>(wrote.nodes);
    let edges = sorted::<EdgeDeclaration>(wrote.edges);
    &&& read.version.value == wrote.version.value
    &&& same_remarks(read.version_comments, wrote.version_comments)
    &&& read.links.len() == links.len()
    &&& forall|i: int| 0 <= i < links.len() ==> same_link(#[trigger] read.links[i], links[i])
    &&& read.schemas.len() == schemas.len()
    &&& forall|i: int| 0 <= i < schemas.len() ==> same_schema(#[trigger] read.schemas[i], schemas[i])
    &&& read.nodes.len() == nodes.len()
    &&& forall|i: int| 0 <= i < nodes.len() ==> same_node(#[trigger] read.nodes[i], nodes[i])
    &&& read.edges.len() == edges.len()
    &&& forall|i: int| 0 <= i < edges.len() ==> same_edge(#[trigger] read.edges[i], edges[i])
    &&& same_list(read.trailing_comments, wrote.trailing_comments)
}

/// The version header is read back.
proof fn header_read(tokens: Seq<TokenModel>, version: u32, comments: CommentsModel, rest: Parts)
    requires
        spell(tokens, 0, true, header_parts(version, comments, rest)),
    ensures
        header(tokens) matches Ok(((found, remarks), next)) && found.value == version
            && same_remarks(remarks, comments) && next.pending == Seq::<CommentModel>::empty()
            && spell(tokens, next.index, false, broken(rest)),
{
    let start = Cursor { index: 0, pending: Seq::<CommentModel>::empty() };
    let end = trailing_parts(comments, rest);
    let digits = digits_of(version as nat);
    let value = number(TokenKind::IntegerLiteral, digits, end);
    let head = directive(TokenKind::NostDirective, spaced(value));
    behind_nothing(header_parts(version, comments, rest));
    let (place, read) = leading_read(
        tokens,
        start,
        true,
        Seq::empty(),
        0,
        comments.leading,
        0,
        indented(0, head),
    );
    assert(comments.leading.subrange(0, comments.leading.len() as int) =~= comments.leading);
    assert(Seq::<CommentModel>::empty() + read =~= read);
    let led = Cursor { index: place, pending: read };
    spell_anywhere(tokens, place, false, super::format::indent(0), head);
    token_found(tokens, led, false, head);
    let first = skip(tokens, start);
    assert(first == skip(tokens, led));
    let what = "`@nost` as the first declaration"@;
    kind_read(tokens, taken(first), head, TokenKind::NostDirective, what);
    let (_, second) = expected(tokens, taken(first), TokenKind::NostDirective, what)->Ok_0;
    spell_anywhere(tokens, second.index, false, seq![' '], value);
    kind_read(
        tokens,
        second,
        value,
        TokenKind::IntegerLiteral,
        "a language version number"@,
    );
    let (_, third) = expected(
        tokens,
        second,
        TokenKind::IntegerLiteral,
        "a language version number"@,
    )->Ok_0;
    digits_read_unsigned(version as nat, u32::MAX as int);
    remarks_read(tokens, third, first.pending, comments, rest);
}

proof fn edges_first_kind(items: Seq<EdgeDeclarationModel>, rest: Parts)
    ensures
        first_kind(edges_parts(items, 0, rest)) == (if items.len() > 0 {
            TokenKind::Keyword(Keyword::Edge)
        } else {
            first_kind(rest)
        }),
{
    word_kinds();
    if items.len() > 0 {
        let more = edges_parts(items, 1, rest);
        let head = edge_head_parts(items[0], more);
        first_behind(super::format::indent(0), head);
        leading_first_kind(0, items[0].record.comments.leading, 0, indented(0, head));
        first_behind(seq!['\n'], edge_parts(items[0], more));
    }
}

proof fn nodes_first_kind(items: Seq<NodeDeclarationModel>, rest: Parts)
    ensures
        first_kind(nodes_parts(items, 0, rest)) == (if items.len() > 0 {
            TokenKind::Keyword(Keyword::Node)
        } else {
            first_kind(rest)
        }),
{
    word_kinds();
    if items.len() > 0 {
        let more = nodes_parts(items, 1, rest);
        let head = node_head_parts(items[0], more);
        first_behind(super::format::indent(0), head);
        leading_first_kind(0, items[0].record.comments.leading, 0, indented(0, head));
        first_behind(seq!['\n'], node_parts(items[0], more));
    }
}

proof fn schemas_first_kind(items: Seq<SchemaDeclarationModel>, rest: Parts)
    ensures
        first_kind(schemas_parts(items, 0, rest)) == (if items.len() > 0 {
            TokenKind::Keyword(Keyword::Schema)
        } else {
            first_kind(rest)
        }),
{
    word_kinds();
    if items.len() > 0 {
        let more = schemas_parts(items, 1, rest);
        let head = schema_head_parts(items[0], more);
        first_behind(super::format::indent(0), head);
        leading_first_kind(0, items[0].comments.leading, 0, indented(0, head));
        first_behind(seq!['\n'], schema_parts(items[0], more));
    }
}

/// What stands first behind the links is a declaration or the end.
proof fn declarations_first_kind(file: SourceFileModel)
    ensures
        first_kind(declarations_parts(file)) != TokenKind::LinkDirective,
        first_kind(declarations_parts(file)) != TokenKind::Keyword(Keyword::As),
{
    let end = Parts::End { gap: Seq::empty() };
    let p1 = closing_parts(0, file.trailing_comments, true, end);
    closing_first_kind(0, file.trailing_comments, true, end);
    let edges = sorted::<EdgeDeclaration>(file.edges);
    let p2 = edges_parts(edges, 0, p1);
    edges_first_kind(edges, p1);
    let nodes = sorted::<NodeDeclaration>(file.nodes);
    let p3 = nodes_parts(nodes, 0, p2);
    nodes_first_kind(nodes, p2);
    schemas_first_kind(sorted::<SchemaDeclaration>(file.schemas), p3);
}

/// The declarations of a file are read back, and its comments at the end.
proof fn declarations_read(
    tokens: Seq<TokenModel>,
    cursor: Cursor,
    start: int,
    gap: Seq<char>,
    wrote: SourceFileModel,
)
    requires
        writable(wrote),
        skip(tokens, cursor) == skip(tokens, Cursor { index: start, pending: Seq::empty() }),
        spell(tokens, start, false, behind(gap, declarations_parts(wrote))),
    ensures
        declarations(
            tokens,
            cursor,
            Declarations {
                schemas: Seq::empty(),
                nodes: Seq::empty(),
                edges: Seq::empty(),
                order: Seq::empty(),
            },
        ) matches Ok((all, next)) && ({
            let schemas = sorted::<SchemaDeclaration>(wrote.schemas);
            let nodes = sorted::<NodeDeclaration>(wrote.nodes);
            let edges = sorted::<EdgeDeclaration>(wrote.edges);
            let last = skip(tokens, next);
            &&& all.schemas.len() == schemas.len()
            &&& forall|i: int| 0 <= i < schemas.len() ==> same_schema(#[trigger] all.schemas[i], schemas[i])
            &&& all.nodes.len() == nodes.len()
            &&& forall|i: int| 0 <= i < nodes.len() ==> same_node(#[trigger] all.nodes[i], nodes[i])
            &&& all.edges.len() == edges.len()
            &&& forall|i: int| 0 <= i < edges.len() ==> same_edge(#[trigger] all.edges[i], edges[i])
            &&& kind(tokens, last) == TokenKind::Eof
            &&& same_list(last.pending, wrote.trailing_comments)
        }),
{
    let schemas = sorted::<SchemaDeclaration>(wrote.schemas);
    let nodes = sorted::<NodeDeclaration>(wrote.nodes);
    let edges = sorted::<EdgeDeclaration>(wrote.edges);
    sorted_all::<SchemaDeclaration>(wrote.schemas, |d: SchemaDeclarationModel| writable_schema(d));
    assert forall|i: int| 0 <= i < schemas.len() implies writable_schema(#[trigger] schemas[i]) by {
        assert((|d: SchemaDeclarationModel| writable_schema(d))(schemas[i]));
    }
    sorted_all::<NodeDeclaration>(wrote.nodes, |d: NodeDeclarationModel| writable_node(d));
    assert forall|i: int| 0 <= i < nodes.len() implies writable_node(#[trigger] nodes[i]) by {
        assert((|d: NodeDeclarationModel| writable_node(d))(nodes[i]));
    }
    sorted_all::<EdgeDeclaration>(wrote.edges, |d: EdgeDeclarationModel| writable_edge(d));
    assert forall|i: int| 0 <= i < edges.len() implies writable_edge(#[trigger] edges[i]) by {
        assert((|d: EdgeDeclarationModel| writable_edge(d))(edges[i]));
    }
    let none = Declarations {
        schemas: Seq::empty(),
        nodes: Seq::empty(),
        edges: Seq::empty(),
        order: Seq::empty(),
    };
    let end = Parts::End { gap: Seq::empty() };
    let comments = wrote.trailing_comments;
    let p1 = closing_parts(0, comments, true, end);
    let p2 = edges_parts(edges, 0, p1);
    let p3 = nodes_parts(nodes, 0, p2);
    let (c1, s1, g1, d1) = schemas_read(tokens, cursor, start, gap, schemas, 0, none, p3);
    let (c2, s2, g2, d2) = nodes_read(tokens, c1, s1, g1, nodes, 0, d1, p2);
    let (c3, s3, g3, d3) = edges_read(tokens, c2, s2, g2, edges, 0, d2, p1);
    let clean = Cursor { index: s3, pending: Seq::<CommentModel>::empty() };
    closing_first_kind(0, comments, true, end);
    first_behind(g3, p1);
    first_found(tokens, clean, false, behind(g3, p1));
    let at = skip(tokens, c3);
    assert(declarations(tokens, c3, d3) == Ok::<_, super::ParseErrorModel>((d3, at)));
    skip_twice(tokens, c3);
    let led = leading_parts(0, comments, 0, end);
    let gap4 = if comments.len() == 0 {
        g3
    } else {
        g3 + seq!['\n']
    };
    behind_twice(g3, seq!['\n'], led);
    let (place, read) = leading_read(tokens, clean, false, gap4, 0, comments, 0, end);
    assert(comments.subrange(0, comments.len() as int) =~= comments);
    assert(Seq::<CommentModel>::empty() + read =~= read);
    end_found(tokens, Cursor { index: place, pending: read }, false, end);
    assert forall|i: int| 0 <= i < schemas.len() implies same_schema(
        #[trigger] d3.schemas[i],
        schemas[i],
    ) by {
        assert(none.schemas.len() + i - 0 == i);
        assert(same_schema(d1.schemas[none.schemas.len() + i - 0], schemas[i]));
    }
    assert forall|i: int| 0 <= i < nodes.len() implies same_node(
        #[trigger] d3.nodes[i],
        nodes[i],
    ) by {
        assert(d1.nodes.len() + i - 0 == i);
        assert(same_node(d2.nodes[d1.nodes.len() + i - 0], nodes[i]));
    }
    assert forall|i: int| 0 <= i < edges.len() implies same_edge(
        #[trigger] d3.edges[i],
        edges[i],
    ) by {
        assert(d2.edges.len() + i - 0 == i);
        assert(same_edge(d3.edges[d2.edges.len() + i - 0], edges[i]));
    }
}

/// A formatted file is read back as it was: the same version, links, schemas, nodes, edges
/// and comments, each kind of declaration, field, property and contribution in canonical
/// order, and numbers and the digits of bytes in their normal form.
pub proof fn formatted_file_reads_back(file: SourceFileModel)
    requires
        writable(file),
    ensures
        parsed(formatted(file)) matches Ok(again) && same_file(again, file),
{
    let source = formatted(file);
    let whole = file_parts(file);
    file_is_written(file);
    assert(source.subrange(0, source.len() as int) =~= source);
    parts_are_lexed(source, 0, true, Seq::empty(), whole);
    let tokens = tokens_of(source)->Ok_0;
    let links_of = sorted::<LinkDeclaration>(file.links);
    sorted_all::<LinkDeclaration>(file.links, |d: LinkDeclarationModel| writable_link(d));
    assert forall|i: int| 0 <= i < links_of.len() implies writable_link(#[trigger] links_of[i]) by {
        assert((|d: LinkDeclarationModel| writable_link(d))(links_of[i]));
    }
    let rest = declarations_parts(file);
    let group = link_group_parts(links_of, rest);
    header_read(tokens, file.version.value, file.version_comments, group);
    let (_, second) = header(tokens)->Ok_0;
    let none = Seq::<LinkDeclarationModel>::empty();
    let gap = if links_of.len() == 0 {
        seq!['\n']
    } else {
        seq!['\n'] + seq!['\n']
    };
    behind_twice(seq!['\n'], seq!['\n'], links_parts(links_of, 0, rest));
    declarations_first_kind(file);
    assert(second == Cursor { index: second.index, pending: Seq::empty() });
    let (start, space) = links_read(
        tokens,
        second,
        second.index,
        gap,
        links_of,
        0,
        none,
        rest,
    );
    let (found, third) = links(tokens, second, none)->Ok_0;
    assert forall|i: int| 0 <= i < links_of.len() implies same_link(
        #[trigger] found[i],
        links_of[i],
    ) by {
        assert(none.len() + i - 0 == i);
        assert(same_link(found[none.len() + i - 0], links_of[i]));
    }
    skip_twice(tokens, Cursor { index: start, pending: Seq::empty() });
    declarations_read(tokens, third, start, space, file);
}

} // verus!
