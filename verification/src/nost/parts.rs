//! The parts a formatted file is made of, and that their text is what the formatter writes.

use super::format::closing_comments;
use super::format::comment_lines;
use super::format::comment_text;
use super::format::contribution_head;
use super::format::contribution_is_empty;
use super::format::contribution_text;
use super::format::contributions_text;
use super::format::edge_head;
use super::format::edge_text;
use super::format::edges_text;
use super::format::endpoint_text;
use super::format::evidence_blocks_text;
use super::format::evidence_field_text;
use super::format::evidence_fields_text;
use super::format::evidence_is_empty;
use super::format::evidence_text;
use super::format::evidence_value_text;
use super::format::float_text;
use super::format::formatted;
use super::format::header_text;
use super::format::indent;
use super::format::integer_text;
use super::format::items_text;
use super::format::line;
use super::format::link_group;
use super::format::link_text;
use super::format::links_text;
use super::format::literal;
use super::format::names_text;
use super::format::node_head;
use super::format::node_text;
use super::format::nodes_text;
use super::format::own_lines;
use super::format::owner_text;
use super::format::properties_text;
use super::format::property_text;
use super::format::shown_value;
use super::format::record_inside;
use super::format::record_is_empty;
use super::format::record_text;
use super::format::schema_field_text;
use super::format::schema_fields_text;
use super::format::schema_head;
use super::format::schema_is_empty;
use super::format::schema_text;
use super::format::schemas_text;
use super::format::value_text;
use super::lexer::hex_bytes;
use super::lexer::hexadecimal;
use super::lexer::peek;
use super::lexer::TokenKind;
use super::lexer::TriviaKind;
use super::parser::names;
use super::written::behind;
use super::written::blank;
use super::written::bytes_reads;
use super::written::comment_kind;
use super::written::comment_reads;
use super::written::datetime_reads;
use super::written::directive_of;
use super::written::directive_reads;
use super::written::hex_pairs;
use super::written::legible;
use super::written::legible_behind;
use super::written::number_reads;
use super::written::numeral;
use super::written::quote_reads;
use super::written::reads;
use super::written::rendered;
use super::written::rendered_behind;
use super::written::shown_double_is_numeral;
use super::written::shown_is_numeral;
use super::written::sign_of;
use super::written::sign_reads;
use super::written::stops;
use super::written::tagged;
use super::written::tidy;
use super::written::token;
use super::written::word_kind;
use super::written::word_reads;
use super::written::wordy;
use super::written::Parts;
use super::CommentModel;
use super::CommentsModel;
use super::ContributionBlock;
use super::ContributionBlockModel;
use super::EdgeDeclaration;
use super::EdgeDeclarationModel;
use super::EndpointConstraintModel;
use super::EndpointModel;
use super::EvidenceBlockModel;
use super::EvidenceField;
use super::EvidenceFieldModel;
use super::EvidenceValueModel;
use super::LinkDeclaration;
use super::LinkDeclarationModel;
use super::NodeDeclaration;
use super::NodeDeclarationModel;
use super::OwnerDeclarationModel;
use super::Property;
use super::PropertyModel;
use super::RecordBodyModel;
use super::SchemaDeclaration;
use super::SchemaDeclarationModel;
use super::SchemaField;
use super::SchemaFieldModel;
use super::SourceFileModel;
use super::Spanned;
use super::ValueModel;
use crate::decimal::lowered;
use crate::decimal::read_double;
use crate::float::finite;
use crate::number::digits_of;
use crate::number::read_signed;
use crate::order::sorted;
use crate::order::sorted_contains;
use crate::order::sorted_length;
use crate::order::Ordered;
use crate::schema::FieldType;
use crate::schema::ScalarType;
use vstd::prelude::*;

verus! {

// -- Single parts ------------------------------------------------------------------

/// The parts behind a space.
pub open spec fn spaced(rest: Parts) -> Parts {
    behind(seq![' '], rest)
}

/// The parts on the next line.
pub open spec fn broken(rest: Parts) -> Parts {
    behind(seq!['\n'], rest)
}

/// The parts behind the indentation of their line.
pub open spec fn indented(depth: nat, rest: Parts) -> Parts {
    behind(indent(depth), rest)
}

/// A word.
pub open spec fn word(text: Seq<char>, rest: Parts) -> Parts {
    token(word_kind(text), text, Seq::empty(), text, rest)
}

/// A sign.
pub open spec fn sign(kind: TokenKind, rest: Parts) -> Parts {
    token(kind, (sign_of(kind)->0).1, Seq::empty(), (sign_of(kind)->0).0, rest)
}

/// A directive.
pub open spec fn directive(kind: TokenKind, rest: Parts) -> Parts {
    token(kind, directive_of(kind)->0, Seq::empty(), seq!['@'] + directive_of(kind)->0, rest)
}

/// A string literal.
pub open spec fn quote(text: Seq<char>, rest: Parts) -> Parts {
    token(TokenKind::StringLiteral, text, Seq::empty(), literal(text), rest)
}

/// A number.
pub open spec fn number(kind: TokenKind, text: Seq<char>, rest: Parts) -> Parts {
    token(kind, text, Seq::empty(), text, rest)
}

/// A comment.
pub open spec fn remark(comment: CommentModel, rest: Parts) -> Parts {
    token(comment_kind(comment), comment.text, Seq::empty(), comment_text(comment), rest)
}

/// Whether a token in front of parts ends there.
pub open spec fn ends(rest: Parts) -> bool {
    stops(peek(rendered(rest), 0))
}

/// A token whose spelling is read as itself in front of what follows it is legible.
proof fn token_written(
    kind: TokenKind,
    text: Seq<char>,
    bytes: Seq<u8>,
    spelling: Seq<char>,
    rest: Parts,
)
    requires
        legible(rest),
        reads(kind, text, bytes, spelling, peek(rendered(rest), 0)),
        kind != TokenKind::Trivia(TriviaKind::Whitespace),
    ensures
        legible(token(kind, text, bytes, spelling, rest)),
        rendered(token(kind, text, bytes, spelling, rest)) == spelling + rendered(rest),
{
    assert(Seq::<char>::empty() + spelling =~= spelling);
}

proof fn gap_written(gap: Seq<char>, rest: Parts)
    requires
        legible(rest),
        blank(gap),
    ensures
        legible(behind(gap, rest)),
        rendered(behind(gap, rest)) == gap + rendered(rest),
{
    legible_behind(gap, rest);
    rendered_behind(gap, rest);
}

proof fn spaced_written(rest: Parts)
    requires
        legible(rest),
    ensures
        legible(spaced(rest)),
        rendered(spaced(rest)) == seq![' '] + rendered(rest),
        ends(spaced(rest)),
        peek(rendered(spaced(rest)), 0) == Some(' '),
{
    gap_written(seq![' '], rest);
}

proof fn broken_written(rest: Parts)
    requires
        legible(rest),
    ensures
        legible(broken(rest)),
        rendered(broken(rest)) == seq!['\n'] + rendered(rest),
        ends(broken(rest)),
        peek(rendered(broken(rest)), 0) == Some('\n'),
{
    gap_written(seq!['\n'], rest);
}

proof fn indent_is_blank(depth: nat)
    ensures
        blank(indent(depth)),
    decreases depth,
{
    reveal_strlit("  ");
    if depth > 0 {
        indent_is_blank((depth - 1) as nat);
    }
}

proof fn indented_written(depth: nat, rest: Parts)
    requires
        legible(rest),
    ensures
        legible(indented(depth, rest)),
        rendered(indented(depth, rest)) == indent(depth) + rendered(rest),
{
    indent_is_blank(depth);
    gap_written(indent(depth), rest);
}

proof fn word_written(text: Seq<char>, rest: Parts)
    requires
        legible(rest),
        wordy(text),
        ends(rest),
    ensures
        legible(word(text, rest)),
        rendered(word(text, rest)) == text + rendered(rest),
{
    word_reads(text, peek(rendered(rest), 0));
    token_written(word_kind(text), text, Seq::empty(), text, rest);
}

proof fn sign_written(kind: TokenKind, rest: Parts)
    requires
        legible(rest),
        sign_of(kind) is Some,
        kind == TokenKind::Colon ==> peek(rendered(rest), 0) != Some(':'),
    ensures
        legible(sign(kind, rest)),
        rendered(sign(kind, rest)) == (sign_of(kind)->0).0 + rendered(rest),
        peek(rendered(sign(kind, rest)), 0) == Some((sign_of(kind)->0).0[0]),
{
    sign_reads(kind, peek(rendered(rest), 0));
    token_written(kind, (sign_of(kind)->0).1, Seq::empty(), (sign_of(kind)->0).0, rest);
}

proof fn directive_written(kind: TokenKind, rest: Parts)
    requires
        legible(rest),
        directive_of(kind) is Some,
        ends(rest),
    ensures
        legible(directive(kind, rest)),
        rendered(directive(kind, rest)) == seq!['@'] + directive_of(kind)->0 + rendered(rest),
{
    directive_reads(kind, peek(rendered(rest), 0));
    token_written(
        kind,
        directive_of(kind)->0,
        Seq::empty(),
        seq!['@'] + directive_of(kind)->0,
        rest,
    );
}

proof fn quote_written(text: Seq<char>, rest: Parts)
    requires
        legible(rest),
    ensures
        legible(quote(text, rest)),
        rendered(quote(text, rest)) == literal(text) + rendered(rest),
{
    quote_reads(text, peek(rendered(rest), 0));
    token_written(TokenKind::StringLiteral, text, Seq::empty(), literal(text), rest);
}

proof fn number_written(kind: TokenKind, text: Seq<char>, rest: Parts)
    requires
        legible(rest),
        numeral(kind, text),
        kind == TokenKind::IntegerLiteral || kind == TokenKind::FloatLiteral,
        ends(rest),
    ensures
        legible(number(kind, text, rest)),
        rendered(number(kind, text, rest)) == text + rendered(rest),
{
    number_reads(kind, text, peek(rendered(rest), 0));
    token_written(kind, text, Seq::empty(), text, rest);
}

proof fn remark_written(comment: CommentModel, rest: Parts)
    requires
        legible(rest),
        tidy(comment),
        peek(rendered(rest), 0) == Some('\n'),
    ensures
        legible(remark(comment, rest)),
        rendered(remark(comment, rest)) == comment_text(comment) + rendered(rest),
{
    comment_reads(comment, peek(rendered(rest), 0));
    token_written(comment_kind(comment), comment.text, Seq::empty(), comment_text(comment), rest);
}

// -- Comments ----------------------------------------------------------------------

/// Whether comments can be written.
pub open spec fn all_tidy(comments: Seq<CommentModel>) -> bool {
    forall|i: int| 0 <= i < comments.len() ==> tidy(#[trigger] comments[i])
}

/// Whether the comments of a construct can be written.
pub open spec fn tidy_comments(comments: CommentsModel) -> bool {
    all_tidy(comments.leading) && (comments.trailing matches Some(comment) ==> tidy(comment))
}

/// The comments from one on, each on its own line.
pub open spec fn leading_parts(
    depth: nat,
    comments: Seq<CommentModel>,
    from: int,
    rest: Parts,
) -> Parts
    decreases comments.len() - from,
{
    if from < 0 || from >= comments.len() {
        rest
    } else {
        indented(
            depth,
            remark(comments[from], broken(leading_parts(depth, comments, from + 1, rest))),
        )
    }
}

/// The comment that trails a line, and the end of the line.
pub open spec fn trailing_parts(comments: CommentsModel, rest: Parts) -> Parts {
    match comments.trailing {
        Some(comment) => spaced(remark(comment, broken(rest))),
        None => broken(rest),
    }
}

#[verifier::spinoff_prover]
#[verifier::rlimit(30)]
proof fn leading_from_written(depth: nat, comments: Seq<CommentModel>, from: int, rest: Parts)
    requires
        legible(rest),
        all_tidy(comments),
        0 <= from <= comments.len(),
    ensures
        legible(leading_parts(depth, comments, from, rest)),
        comment_lines(depth, comments, from) + rendered(leading_parts(depth, comments, from, rest))
            == own_lines(depth, comments) + rendered(rest),
    decreases comments.len() - from,
{
    if from < comments.len() {
        leading_from_written(depth, comments, from + 1, rest);
        reveal_strlit("\n");
        let more = leading_parts(depth, comments, from + 1, rest);
        broken_written(more);
        remark_written(comments[from], broken(more));
        indented_written(depth, remark(comments[from], broken(more)));
        assert("\n"@ =~= seq!['\n']);
        assert(comment_lines(depth, comments, from) + rendered(
            leading_parts(depth, comments, from, rest),
        ) =~= comment_lines(depth, comments, from + 1) + rendered(more));
    }
}

proof fn leading_written(depth: nat, comments: Seq<CommentModel>, rest: Parts)
    requires
        legible(rest),
        all_tidy(comments),
    ensures
        legible(leading_parts(depth, comments, 0, rest)),
        rendered(leading_parts(depth, comments, 0, rest)) == own_lines(depth, comments) + rendered(
            rest,
        ),
{
    leading_from_written(depth, comments, 0, rest);
    let all = leading_parts(depth, comments, 0, rest);
    assert(comment_lines(depth, comments, 0) + rendered(all) =~= rendered(all));
}

/// What `trailing_parts` writes.
pub open spec fn trailing_text(comments: CommentsModel) -> Seq<char> {
    match comments.trailing {
        Some(comment) => seq![' '] + comment_text(comment) + seq!['\n'],
        None => seq!['\n'],
    }
}

proof fn trailing_written(comments: CommentsModel, rest: Parts)
    requires
        legible(rest),
        tidy_comments(comments),
    ensures
        legible(trailing_parts(comments, rest)),
        rendered(trailing_parts(comments, rest)) == trailing_text(comments) + rendered(rest),
        ends(trailing_parts(comments, rest)),
{
    broken_written(rest);
    match comments.trailing {
        Some(comment) => {
            remark_written(comment, broken(rest));
            spaced_written(remark(comment, broken(rest)));
            assert(rendered(trailing_parts(comments, rest)) =~= trailing_text(comments) + rendered(
                rest,
            ));
        },
        None => {},
    }
}

/// A line with its trailing comment, and what it is made of.
proof fn line_with_trailing(depth: nat, text: Seq<char>, comments: CommentsModel)
    ensures
        line(depth, super::format::with_trailing(text, comments)) == indent(depth) + text
            + trailing_text(comments),
{
    reveal_strlit("\n");
    reveal_strlit(" ");
    assert(line(depth, super::format::with_trailing(text, comments)) =~= indent(depth) + text
        + trailing_text(comments));
}

// -- Values ------------------------------------------------------------------------

/// Whether a text can stand as a name.
pub open spec fn nameable(text: Seq<char>) -> bool {
    wordy(text) && names(word_kind(text))
}

/// Whether a scalar can be written: a number is spelled like one, and bytes are pairs of
/// digits.
pub open spec fn writable_scalar(value: ValueModel) -> bool {
    match value {
        ValueModel::Boolean(_) => true,
        ValueModel::Integer(text) => numeral(TokenKind::IntegerLiteral, text),
        ValueModel::Float(text) => numeral(TokenKind::FloatLiteral, text),
        ValueModel::String(_) => true,
        ValueModel::Bytes { digits, .. } => hex_pairs(digits),
        ValueModel::DateTime(_) => true,
        ValueModel::List(_) => false,
    }
}

/// Whether a value can be written.
pub open spec fn writable_value(value: ValueModel) -> bool {
    match value {
        ValueModel::List(items) => forall|i: int|
            0 <= i < items.len() ==> writable_scalar((#[trigger] items[i]).value),
        _ => writable_scalar(value),
    }
}

/// A scalar.
pub open spec fn scalar_parts(value: ValueModel, rest: Parts) -> Parts {
    match value {
        ValueModel::Boolean(flag) => if flag {
            word("true"@, rest)
        } else {
            word("false"@, rest)
        },
        ValueModel::Integer(text) => number(TokenKind::IntegerLiteral, integer_text(text), rest),
        ValueModel::Float(text) => number(TokenKind::FloatLiteral, float_text(text), rest),
        ValueModel::String(text) => quote(text, rest),
        ValueModel::Bytes { digits, .. } => token(
            TokenKind::BytesLiteral,
            lowered(digits),
            hex_bytes(lowered(digits)),
            tagged("bytes"@, lowered(digits)),
            rest,
        ),
        ValueModel::DateTime(text) => token(
            TokenKind::DateTimeLiteral,
            text,
            Seq::empty(),
            "datetime"@ + literal(text),
            rest,
        ),
        ValueModel::List(_) => rest,
    }
}

/// The items of a list from one on.
pub open spec fn items_parts(items: Seq<Spanned<ValueModel>>, from: int, rest: Parts) -> Parts
    decreases items.len() - from,
{
    if from < 0 || from >= items.len() {
        rest
    } else if from == items.len() - 1 {
        scalar_parts(items[from].value, rest)
    } else {
        scalar_parts(
            items[from].value,
            sign(TokenKind::Comma, spaced(items_parts(items, from + 1, rest))),
        )
    }
}

/// A value.
pub open spec fn value_parts(value: ValueModel, rest: Parts) -> Parts {
    match value {
        ValueModel::List(items) => sign(
            TokenKind::LeftBracket,
            items_parts(items, 0, sign(TokenKind::RightBracket, rest)),
        ),
        _ => scalar_parts(value, rest),
    }
}

/// The words that the formatter writes by itself are words.
pub proof fn fixed_words()
    ensures
        wordy("true"@),
        wordy("false"@),
        wordy("analyzer"@),
        wordy("ai"@),
        wordy("user"@),
        wordy("unit"@),
        wordy("schema"@),
        wordy("node"@),
        wordy("edge"@),
        wordy("as"@),
{
    reveal_strlit("true");
    reveal_strlit("false");
    reveal_strlit("analyzer");
    reveal_strlit("ai");
    reveal_strlit("user");
    reveal_strlit("unit");
    reveal_strlit("schema");
    reveal_strlit("node");
    reveal_strlit("edge");
    reveal_strlit("as");
}

proof fn integer_text_is_numeral(text: Seq<char>)
    requires
        numeral(TokenKind::IntegerLiteral, text),
    ensures
        numeral(TokenKind::IntegerLiteral, integer_text(text)),
{
    if let Some(number) = read_signed(text) {
        shown_is_numeral(number);
    }
}

proof fn float_text_is_numeral(kind: TokenKind, text: Seq<char>)
    requires
        numeral(kind, text),
    ensures
        numeral(kind, float_text(text)) || numeral(TokenKind::FloatLiteral, float_text(text)),
        kind == TokenKind::FloatLiteral ==> numeral(TokenKind::FloatLiteral, float_text(text)),
{
    if let Some(bits) = read_double(text) {
        if finite(bits) {
            shown_double_is_numeral(bits);
        }
    }
}

proof fn lowered_is_hexadecimal(digits: Seq<char>)
    requires
        hex_pairs(digits),
    ensures
        hex_pairs(lowered(digits)),
{
    assert forall|i: int| 0 <= i < lowered(digits).len() implies hexadecimal(
        #[trigger] lowered(digits)[i],
    ) by {
        assert(hexadecimal(digits[i]));
    }
}

proof fn scalar_written(value: ValueModel, rest: Parts)
    requires
        writable_scalar(value),
        legible(rest),
        ends(rest),
    ensures
        legible(scalar_parts(value, rest)),
        rendered(scalar_parts(value, rest)) == value_text(value) + rendered(rest),
{
    fixed_words();
    let next = peek(rendered(rest), 0);
    match value {
        ValueModel::Boolean(flag) => {
            if flag {
                word_written("true"@, rest);
            } else {
                word_written("false"@, rest);
            }
        },
        ValueModel::Integer(text) => {
            integer_text_is_numeral(text);
            number_written(TokenKind::IntegerLiteral, integer_text(text), rest);
        },
        ValueModel::Float(text) => {
            float_text_is_numeral(TokenKind::FloatLiteral, text);
            number_written(TokenKind::FloatLiteral, float_text(text), rest);
        },
        ValueModel::String(text) => {
            quote_written(text, rest);
        },
        ValueModel::Bytes { digits, .. } => {
            let low = lowered(digits);
            lowered_is_hexadecimal(digits);
            bytes_reads(low, next);
            token_written(TokenKind::BytesLiteral, low, hex_bytes(low), tagged("bytes"@, low), rest);
            reveal_strlit("bytes");
            reveal_strlit("bytes\"");
            reveal_strlit("\"");
            assert(value_text(value) =~= tagged("bytes"@, low));
        },
        ValueModel::DateTime(text) => {
            datetime_reads(text, next);
            token_written(
                TokenKind::DateTimeLiteral,
                text,
                Seq::empty(),
                "datetime"@ + literal(text),
                rest,
            );
            reveal_strlit("datetime");
        },
        ValueModel::List(_) => {},
    }
}

#[verifier::spinoff_prover]
#[verifier::rlimit(30)]
proof fn items_written(items: Seq<Spanned<ValueModel>>, from: int, rest: Parts)
    requires
        forall|i: int| 0 <= i < items.len() ==> writable_scalar((#[trigger] items[i]).value),
        0 <= from < items.len(),
        legible(rest),
        ends(rest),
    ensures
        legible(items_parts(items, from, rest)),
        items_text(items, from as nat) + (if from > 0 {
            ", "@
        } else {
            Seq::empty()
        }) + rendered(items_parts(items, from, rest)) == items_text(items, items.len())
            + rendered(rest),
    decreases items.len() - from,
{
    reveal_strlit(", ");
    reveal_with_fuel(items_text, 2);
    let item = items[from].value;
    assert(writable_scalar(items[from].value));
    if from == items.len() - 1 {
        scalar_written(item, rest);
        if from == 0 {
            assert(items_text(items, 0) + Seq::<char>::empty() + rendered(
                items_parts(items, from, rest),
            ) =~= items_text(items, items.len()) + rendered(rest));
        } else {
            assert(items_text(items, from as nat) + ", "@ + rendered(items_parts(items, from, rest))
                =~= items_text(items, items.len()) + rendered(rest));
        }
    } else {
        items_written(items, from + 1, rest);
        let more = items_parts(items, from + 1, rest);
        spaced_written(more);
        sign_written(TokenKind::Comma, spaced(more));
        scalar_written(item, sign(TokenKind::Comma, spaced(more)));
        assert(", "@ =~= seq![','] + seq![' ']);
        let here = rendered(items_parts(items, from, rest));
        assert(here =~= value_text(item) + ", "@ + rendered(more));
        if from == 0 {
            assert(items_text(items, 0) + Seq::<char>::empty() + here =~= items_text(items, 1)
                + ", "@ + rendered(more));
        } else {
            assert(items_text(items, from as nat) + ", "@ + here =~= items_text(
                items,
                (from + 1) as nat,
            ) + ", "@ + rendered(more));
        }
    }
}

proof fn value_written(value: ValueModel, rest: Parts)
    requires
        writable_value(value),
        legible(rest),
        ends(rest),
    ensures
        legible(value_parts(value, rest)),
        rendered(value_parts(value, rest)) == value_text(value) + rendered(rest),
{
    match value {
        ValueModel::List(items) => {
            reveal_strlit("[");
            reveal_strlit("]");
            let close = sign(TokenKind::RightBracket, rest);
            sign_written(TokenKind::RightBracket, rest);
            if items.len() > 0 {
                items_written(items, 0, close);
                assert(items_text(items, 0) + Seq::<char>::empty() + rendered(
                    items_parts(items, 0, close),
                ) =~= rendered(items_parts(items, 0, close)));
            }
            let inside = items_parts(items, 0, close);
            assert(rendered(inside) =~= items_text(items, items.len()) + rendered(close));
            sign_written(TokenKind::LeftBracket, inside);
            assert(rendered(value_parts(value, rest)) =~= value_text(value) + rendered(rest));
        },
        _ => {
            scalar_written(value, rest);
        },
    }
}

// -- Entries -----------------------------------------------------------------------

/// The comma behind an entry that is not the last, the comment that trails it, and the end
/// of the line.
pub open spec fn entry_parts(last: bool, comments: CommentsModel, rest: Parts) -> Parts {
    if last {
        trailing_parts(comments, rest)
    } else {
        sign(TokenKind::Comma, trailing_parts(comments, rest))
    }
}

proof fn entry_written(last: bool, comments: CommentsModel, rest: Parts)
    requires
        legible(rest),
        tidy_comments(comments),
    ensures
        legible(entry_parts(last, comments, rest)),
        rendered(entry_parts(last, comments, rest)) == super::format::separator(last)
            + trailing_text(comments) + rendered(rest),
        ends(entry_parts(last, comments, rest)),
{
    reveal_strlit(",");
    trailing_written(comments, rest);
    let end = trailing_parts(comments, rest);
    if !last {
        sign_written(TokenKind::Comma, end);
    }
    assert(rendered(entry_parts(last, comments, rest)) =~= super::format::separator(last)
        + trailing_text(comments) + rendered(rest));
}

/// The pieces of an entry, however they are bracketed.
#[verifier::spinoff_prover]
#[verifier::rlimit(30)]
proof fn entry_joins(
    lead: Seq<char>,
    depth: Seq<char>,
    key: Seq<char>,
    value: Seq<char>,
    comma: Seq<char>,
    tail: Seq<char>,
    rest: Seq<char>,
)
    ensures
        lead + (depth + (key + (seq![':'] + (seq![' '] + (value + (comma + tail + rest)))))) == lead
            + (depth + (key + seq![':', ' '] + value + comma) + tail) + rest,
{
    assert(lead + (depth + (key + (seq![':'] + (seq![' '] + (value + (comma + tail + rest)))))) =~= lead
        + (depth + (key + seq![':', ' '] + value + comma) + tail) + rest);
}

/// Whether a property can be written.
pub open spec fn writable_property(property: PropertyModel) -> bool {
    nameable(property.key.value) && writable_value(property.value.value) && tidy_comments(
        property.comments,
    )
}

/// One property.
pub open spec fn property_parts(
    depth: nat,
    property: PropertyModel,
    last: bool,
    rest: Parts,
) -> Parts {
    leading_parts(
        depth,
        property.comments.leading,
        0,
        indented(
            depth,
            word(
                property.key.value,
                sign(
                    TokenKind::Colon,
                    spaced(
                        value_parts(
                            shown_value(property),
                            entry_parts(last, property.comments, rest),
                        ),
                    ),
                ),
            ),
        ),
    )
}

/// The properties from one on.
pub open spec fn properties_parts(
    depth: nat,
    items: Seq<PropertyModel>,
    from: int,
    rest: Parts,
) -> Parts
    decreases items.len() - from,
{
    if from < 0 || from >= items.len() {
        rest
    } else {
        property_parts(
            depth,
            items[from],
            from == items.len() - 1,
            properties_parts(depth, items, from + 1, rest),
        )
    }
}

/// What is written of a value that can be written can be written.
pub proof fn shown_is_writable(property: PropertyModel)
    requires
        writable_value(property.value.value),
    ensures
        writable_value(shown_value(property)),
{
}

#[verifier::spinoff_prover]
#[verifier::rlimit(30)]
proof fn property_written(depth: nat, property: PropertyModel, last: bool, rest: Parts)
    requires
        writable_property(property),
        legible(rest),
    ensures
        legible(property_parts(depth, property, last, rest)),
        rendered(property_parts(depth, property, last, rest)) == property_text(
            depth,
            property,
            last,
        ) + rendered(rest),
{
    reveal_strlit(": ");
    let end = entry_parts(last, property.comments, rest);
    entry_written(last, property.comments, rest);
    shown_is_writable(property);
    let value = value_parts(shown_value(property), end);
    value_written(shown_value(property), end);
    spaced_written(value);
    sign_written(TokenKind::Colon, spaced(value));
    let key = word(property.key.value, sign(TokenKind::Colon, spaced(value)));
    word_written(property.key.value, sign(TokenKind::Colon, spaced(value)));
    indented_written(depth, key);
    leading_written(depth, property.comments.leading, indented(depth, key));
    let text = property.key.value + ": "@ + value_text(shown_value(property))
        + super::format::separator(last);
    line_with_trailing(depth, text, property.comments);
    assert(": "@ =~= seq![':', ' ']);
    entry_joins(
        own_lines(depth, property.comments.leading),
        indent(depth),
        property.key.value,
        value_text(shown_value(property)),
        super::format::separator(last),
        trailing_text(property.comments),
        rendered(rest),
    );
}

proof fn properties_written(depth: nat, items: Seq<PropertyModel>, from: int, rest: Parts)
    requires
        forall|i: int| 0 <= i < items.len() ==> writable_property(#[trigger] items[i]),
        0 <= from <= items.len(),
        legible(rest),
    ensures
        legible(properties_parts(depth, items, from, rest)),
        properties_text(depth, items, from) + rendered(properties_parts(depth, items, from, rest))
            == properties_text(depth, items, items.len() as int) + rendered(rest),
    decreases items.len() - from,
{
    if from < items.len() {
        properties_written(depth, items, from + 1, rest);
        let more = properties_parts(depth, items, from + 1, rest);
        property_written(depth, items[from], from == items.len() - 1, more);
        assert(properties_text(depth, items, from) + rendered(
            properties_parts(depth, items, from, rest),
        ) =~= properties_text(depth, items, from + 1) + rendered(more));
    }
}

// -- Evidence ----------------------------------------------------------------------

/// Whether an evidence value can be written.
pub open spec fn writable_evidence(value: EvidenceValueModel) -> bool {
    match value {
        EvidenceValueModel::Text(_) => true,
        EvidenceValueModel::Enumerator { name, score } => nameable(name) && (score matches Some(
            text,
        ) ==> numeral(TokenKind::IntegerLiteral, text) || numeral(TokenKind::FloatLiteral, text)),
    }
}

/// What a score that is written is.
pub open spec fn score_kind(text: Seq<char>) -> TokenKind {
    if numeral(TokenKind::FloatLiteral, float_text(text)) {
        TokenKind::FloatLiteral
    } else {
        TokenKind::IntegerLiteral
    }
}

/// An evidence value.
pub open spec fn evidence_value_parts(value: EvidenceValueModel, rest: Parts) -> Parts {
    match value {
        EvidenceValueModel::Text(text) => quote(text, rest),
        EvidenceValueModel::Enumerator { name, score } => match score {
            Some(text) => word(
                name,
                sign(
                    TokenKind::LeftParen,
                    number(
                        score_kind(text),
                        float_text(text),
                        sign(TokenKind::RightParen, rest),
                    ),
                ),
            ),
            None => word(name, rest),
        },
    }
}

proof fn evidence_value_written(value: EvidenceValueModel, rest: Parts)
    requires
        writable_evidence(value),
        legible(rest),
        ends(rest),
    ensures
        legible(evidence_value_parts(value, rest)),
        rendered(evidence_value_parts(value, rest)) == evidence_value_text(value) + rendered(rest),
{
    match value {
        EvidenceValueModel::Text(text) => {
            quote_written(text, rest);
        },
        EvidenceValueModel::Enumerator { name, score } => match score {
            Some(text) => {
                reveal_strlit("(");
                reveal_strlit(")");
                let close = sign(TokenKind::RightParen, rest);
                sign_written(TokenKind::RightParen, rest);
                if numeral(TokenKind::FloatLiteral, text) {
                    float_text_is_numeral(TokenKind::FloatLiteral, text);
                } else {
                    float_text_is_numeral(TokenKind::IntegerLiteral, text);
                }
                let inside = number(score_kind(text), float_text(text), close);
                number_written(score_kind(text), float_text(text), close);
                sign_written(TokenKind::LeftParen, inside);
                word_written(name, sign(TokenKind::LeftParen, inside));
                assert(rendered(evidence_value_parts(value, rest)) =~= evidence_value_text(value)
                    + rendered(rest));
            },
            None => {
                word_written(name, rest);
            },
        },
    }
}

/// Whether an evidence field can be written.
pub open spec fn writable_evidence_field(field: EvidenceFieldModel) -> bool {
    nameable(field.key.value) && writable_evidence(field.value.value) && tidy_comments(
        field.comments,
    )
}

/// One evidence field.
pub open spec fn evidence_field_parts(
    depth: nat,
    field: EvidenceFieldModel,
    last: bool,
    rest: Parts,
) -> Parts {
    leading_parts(
        depth,
        field.comments.leading,
        0,
        indented(
            depth,
            word(
                field.key.value,
                sign(
                    TokenKind::Colon,
                    spaced(
                        evidence_value_parts(
                            field.value.value,
                            entry_parts(last, field.comments, rest),
                        ),
                    ),
                ),
            ),
        ),
    )
}

/// The evidence fields from one on.
pub open spec fn evidence_fields_parts(
    depth: nat,
    items: Seq<EvidenceFieldModel>,
    from: int,
    rest: Parts,
) -> Parts
    decreases items.len() - from,
{
    if from < 0 || from >= items.len() {
        rest
    } else {
        evidence_field_parts(
            depth,
            items[from],
            from == items.len() - 1,
            evidence_fields_parts(depth, items, from + 1, rest),
        )
    }
}

#[verifier::spinoff_prover]
#[verifier::rlimit(30)]
proof fn evidence_field_written(depth: nat, field: EvidenceFieldModel, last: bool, rest: Parts)
    requires
        writable_evidence_field(field),
        legible(rest),
    ensures
        legible(evidence_field_parts(depth, field, last, rest)),
        rendered(evidence_field_parts(depth, field, last, rest)) == evidence_field_text(
            depth,
            field,
            last,
        ) + rendered(rest),
{
    reveal_strlit(": ");
    let end = entry_parts(last, field.comments, rest);
    entry_written(last, field.comments, rest);
    let value = evidence_value_parts(field.value.value, end);
    evidence_value_written(field.value.value, end);
    spaced_written(value);
    sign_written(TokenKind::Colon, spaced(value));
    let key = word(field.key.value, sign(TokenKind::Colon, spaced(value)));
    word_written(field.key.value, sign(TokenKind::Colon, spaced(value)));
    indented_written(depth, key);
    leading_written(depth, field.comments.leading, indented(depth, key));
    let text = field.key.value + ": "@ + evidence_value_text(field.value.value)
        + super::format::separator(last);
    line_with_trailing(depth, text, field.comments);
    assert(": "@ =~= seq![':', ' ']);
    entry_joins(
        own_lines(depth, field.comments.leading),
        indent(depth),
        field.key.value,
        evidence_value_text(field.value.value),
        super::format::separator(last),
        trailing_text(field.comments),
        rendered(rest),
    );
}

proof fn evidence_fields_written(
    depth: nat,
    items: Seq<EvidenceFieldModel>,
    from: int,
    rest: Parts,
)
    requires
        forall|i: int| 0 <= i < items.len() ==> writable_evidence_field(#[trigger] items[i]),
        0 <= from <= items.len(),
        legible(rest),
    ensures
        legible(evidence_fields_parts(depth, items, from, rest)),
        evidence_fields_text(depth, items, from) + rendered(
            evidence_fields_parts(depth, items, from, rest),
        ) == evidence_fields_text(depth, items, items.len() as int) + rendered(rest),
    decreases items.len() - from,
{
    if from < items.len() {
        evidence_fields_written(depth, items, from + 1, rest);
        let more = evidence_fields_parts(depth, items, from + 1, rest);
        evidence_field_written(depth, items[from], from == items.len() - 1, more);
        assert(evidence_fields_text(depth, items, from) + rendered(
            evidence_fields_parts(depth, items, from, rest),
        ) =~= evidence_fields_text(depth, items, from + 1) + rendered(more));
    }
}

// -- Blocks ------------------------------------------------------------------------

/// The brace that opens a block, and the end of its line.
pub open spec fn open_parts(comments: CommentsModel, rest: Parts) -> Parts {
    spaced(sign(TokenKind::LeftBrace, trailing_parts(comments, rest)))
}

/// The brace that closes a block, on its own line.
pub open spec fn close_parts(depth: nat, rest: Parts) -> Parts {
    indented(depth, sign(TokenKind::RightBrace, broken(rest)))
}

/// The two braces of an empty block, and the end of their line.
pub open spec fn hollow_parts(comments: CommentsModel, rest: Parts) -> Parts {
    spaced(sign(TokenKind::LeftBrace, sign(TokenKind::RightBrace, trailing_parts(comments, rest))))
}

proof fn open_written(comments: CommentsModel, rest: Parts)
    requires
        legible(rest),
        tidy_comments(comments),
    ensures
        legible(open_parts(comments, rest)),
        rendered(open_parts(comments, rest)) == seq![' ', '{'] + trailing_text(comments) + rendered(
            rest,
        ),
        ends(open_parts(comments, rest)),
{
    let end = trailing_parts(comments, rest);
    trailing_written(comments, rest);
    sign_written(TokenKind::LeftBrace, end);
    spaced_written(sign(TokenKind::LeftBrace, end));
    assert(rendered(open_parts(comments, rest)) =~= seq![' ', '{'] + trailing_text(comments)
        + rendered(rest));
}

proof fn close_written(depth: nat, rest: Parts)
    requires
        legible(rest),
    ensures
        legible(close_parts(depth, rest)),
        rendered(close_parts(depth, rest)) == line(depth, "}"@) + rendered(rest),
{
    reveal_strlit("}");
    reveal_strlit("\n");
    broken_written(rest);
    sign_written(TokenKind::RightBrace, broken(rest));
    indented_written(depth, sign(TokenKind::RightBrace, broken(rest)));
    assert(rendered(close_parts(depth, rest)) =~= line(depth, "}"@) + rendered(rest));
}

proof fn hollow_written(comments: CommentsModel, rest: Parts)
    requires
        legible(rest),
        tidy_comments(comments),
    ensures
        legible(hollow_parts(comments, rest)),
        rendered(hollow_parts(comments, rest)) == seq![' ', '{', '}'] + trailing_text(comments)
            + rendered(rest),
        ends(hollow_parts(comments, rest)),
{
    let end = trailing_parts(comments, rest);
    trailing_written(comments, rest);
    let close = sign(TokenKind::RightBrace, end);
    sign_written(TokenKind::RightBrace, end);
    sign_written(TokenKind::LeftBrace, close);
    spaced_written(sign(TokenKind::LeftBrace, close));
    assert(rendered(hollow_parts(comments, rest)) =~= seq![' ', '{', '}'] + trailing_text(comments)
        + rendered(rest));
}

/// The text of a block, however it is bracketed.
#[verifier::spinoff_prover]
#[verifier::rlimit(30)]
proof fn block_joins(
    lead: Seq<char>,
    depth: nat,
    head: Seq<char>,
    comments: CommentsModel,
    body: Seq<char>,
    rest: Seq<char>,
)
    ensures
        lead + (indent(depth) + (head + (seq![' ', '{'] + trailing_text(comments) + (body + (line(
            depth,
            "}"@,
        ) + rest))))) == lead + super::format::block_text(depth, head, comments, false, body) + rest,
        lead + (indent(depth) + (head + (seq![' ', '{', '}'] + trailing_text(comments) + rest)))
            == lead + super::format::block_text(depth, head, comments, true, body) + rest,
{
    reveal_strlit(" {");
    reveal_strlit(" {}");
    line_with_trailing(depth, head + " {"@, comments);
    line_with_trailing(depth, head + " {}"@, comments);
    let close = line(depth, "}"@);
    assert(" {"@ =~= seq![' ', '{']);
    assert(" {}"@ =~= seq![' ', '{', '}']);
    assert(lead + (indent(depth) + (head + (seq![' ', '{'] + trailing_text(comments) + (body + (
    close + rest))))) =~= lead + (indent(depth) + (head + seq![' ', '{']) + trailing_text(comments)
        + body + close) + rest);
    assert(lead + (indent(depth) + (head + (seq![' ', '{', '}'] + trailing_text(comments) + rest)))
        =~= lead + (indent(depth) + (head + seq![' ', '{', '}']) + trailing_text(comments)) + rest);
}

/// Whether the comments of a block can be written.
pub open spec fn writable_block(
    comments: CommentsModel,
    block_comments: Seq<CommentModel>,
) -> bool {
    tidy_comments(comments) && all_tidy(block_comments)
}

/// What holds of all items holds of the sorted items.
pub proof fn sorted_all<T: Ordered>(items: Seq<T::V>, holds: spec_fn(T::V) -> bool)
    requires
        forall|i: int| 0 <= i < items.len() ==> holds(#[trigger] items[i]),
    ensures
        forall|i: int| 0 <= i < sorted::<T>(items).len() ==> holds(#[trigger] sorted::<T>(items)[i]),
        sorted::<T>(items).len() == items.len(),
{
    sorted_length::<T>(items);
    assert forall|i: int| 0 <= i < sorted::<T>(items).len() implies holds(
        #[trigger] sorted::<T>(items)[i],
    ) by {
        let item = sorted::<T>(items)[i];
        sorted_contains::<T>(items, item);
        assert(sorted::<T>(items).contains(item));
        let k = choose|k: int| 0 <= k < items.len() && items[k] == item;
        assert(holds(items[k]));
    }
}

/// Whether an evidence block can be written.
pub open spec fn writable_evidence_block(block: EvidenceBlockModel) -> bool {
    &&& forall|i: int| 0 <= i < block.fields.len() ==> writable_evidence_field(#[trigger] block.fields[i])
    &&& writable_block(block.comments, block.block_comments)
}

/// An evidence block.
pub open spec fn evidence_parts(depth: nat, block: EvidenceBlockModel, rest: Parts) -> Parts {
    leading_parts(
        depth,
        block.comments.leading,
        0,
        indented(
            depth,
            directive(
                TokenKind::EvidenceDirective,
                if evidence_is_empty(block) {
                    hollow_parts(block.comments, rest)
                } else {
                    open_parts(
                        block.comments,
                        evidence_fields_parts(
                            depth + 1,
                            sorted::<EvidenceField>(block.fields),
                            0,
                            leading_parts(depth + 1, block.block_comments, 0, close_parts(depth, rest)),
                        ),
                    )
                },
            ),
        ),
    )
}

/// The evidence blocks from one on.
pub open spec fn evidence_blocks_parts(
    depth: nat,
    items: Seq<EvidenceBlockModel>,
    from: int,
    rest: Parts,
) -> Parts
    decreases items.len() - from,
{
    if from < 0 || from >= items.len() {
        rest
    } else {
        let here = evidence_parts(
            depth,
            items[from],
            evidence_blocks_parts(depth, items, from + 1, rest),
        );
        if from > 0 {
            broken(here)
        } else {
            here
        }
    }
}

#[verifier::spinoff_prover]
#[verifier::rlimit(30)]
proof fn evidence_written(depth: nat, block: EvidenceBlockModel, rest: Parts)
    requires
        writable_evidence_block(block),
        legible(rest),
    ensures
        legible(evidence_parts(depth, block, rest)),
        rendered(evidence_parts(depth, block, rest)) == evidence_text(depth, block) + rendered(rest),
{
    reveal_strlit("evidence");
    reveal_strlit("@evidence");
    let fields = sorted::<EvidenceField>(block.fields);
    let close = close_parts(depth, rest);
    let remarks = leading_parts(depth + 1, block.block_comments, 0, close);
    let inside = evidence_fields_parts(depth + 1, fields, 0, remarks);
    let text = evidence_fields_text(depth + 1, fields, fields.len() as int);
    let body = text + own_lines(depth + 1, block.block_comments);
    let open = if evidence_is_empty(block) {
        hollow_parts(block.comments, rest)
    } else {
        open_parts(block.comments, inside)
    };
    if evidence_is_empty(block) {
        hollow_written(block.comments, rest);
    } else {
        close_written(depth, rest);
        leading_written(depth + 1, block.block_comments, close);
        sorted_all::<EvidenceField>(block.fields, |f: EvidenceFieldModel| writable_evidence_field(f));
        assert forall|i: int| 0 <= i < fields.len() implies writable_evidence_field(
            #[trigger] fields[i],
        ) by {
            assert((|f: EvidenceFieldModel| writable_evidence_field(f))(fields[i]));
        }
        evidence_fields_written(depth + 1, fields, 0, remarks);
        assert(evidence_fields_text(depth + 1, fields, 0) + rendered(inside) =~= rendered(inside));
        open_written(block.comments, inside);
        assert(rendered(inside) =~= body + rendered(close));
    }
    directive_written(TokenKind::EvidenceDirective, open);
    let head = directive(TokenKind::EvidenceDirective, open);
    assert("@evidence"@ =~= seq!['@'] + "evidence"@);
    indented_written(depth, head);
    leading_written(depth, block.comments.leading, indented(depth, head));
    block_joins(
        own_lines(depth, block.comments.leading),
        depth,
        "@evidence"@,
        block.comments,
        body,
        rendered(rest),
    );
}

proof fn evidence_blocks_written(
    depth: nat,
    items: Seq<EvidenceBlockModel>,
    from: int,
    rest: Parts,
)
    requires
        forall|i: int| 0 <= i < items.len() ==> writable_evidence_block(#[trigger] items[i]),
        0 <= from <= items.len(),
        legible(rest),
    ensures
        legible(evidence_blocks_parts(depth, items, from, rest)),
        evidence_blocks_text(depth, items, from) + rendered(
            evidence_blocks_parts(depth, items, from, rest),
        ) == evidence_blocks_text(depth, items, items.len() as int) + rendered(rest),
    decreases items.len() - from,
{
    if from < items.len() {
        reveal_strlit("\n");
        evidence_blocks_written(depth, items, from + 1, rest);
        let more = evidence_blocks_parts(depth, items, from + 1, rest);
        evidence_written(depth, items[from], more);
        broken_written(evidence_parts(depth, items[from], more));
        assert(evidence_blocks_text(depth, items, from) + rendered(
            evidence_blocks_parts(depth, items, from, rest),
        ) =~= evidence_blocks_text(depth, items, from + 1) + rendered(more));
    }
}

/// The comments at the end of a block.
pub open spec fn closing_parts(
    depth: nat,
    comments: Seq<CommentModel>,
    blocks: bool,
    rest: Parts,
) -> Parts {
    if comments.len() == 0 {
        rest
    } else if blocks {
        broken(leading_parts(depth, comments, 0, rest))
    } else {
        leading_parts(depth, comments, 0, rest)
    }
}

proof fn closing_written(depth: nat, comments: Seq<CommentModel>, blocks: bool, rest: Parts)
    requires
        all_tidy(comments),
        legible(rest),
    ensures
        legible(closing_parts(depth, comments, blocks, rest)),
        rendered(closing_parts(depth, comments, blocks, rest)) == closing_comments(
            depth,
            comments,
            blocks,
        ) + rendered(rest),
{
    reveal_strlit("\n");
    leading_written(depth, comments, rest);
    broken_written(leading_parts(depth, comments, 0, rest));
    assert(rendered(closing_parts(depth, comments, blocks, rest)) =~= closing_comments(
        depth,
        comments,
        blocks,
    ) + rendered(rest));
}

// -- Contributions -----------------------------------------------------------------

/// An owner.
pub open spec fn owner_parts(owner: OwnerDeclarationModel, rest: Parts) -> Parts {
    match owner {
        OwnerDeclarationModel::Analyzer { name, version } => word(
            "analyzer"@,
            spaced(quote(name.value, spaced(quote(version.value, rest)))),
        ),
        OwnerDeclarationModel::Ai { contract_digest } => word(
            "ai"@,
            spaced(quote(contract_digest.value, rest)),
        ),
        OwnerDeclarationModel::User { .. } => word("user"@, rest),
        OwnerDeclarationModel::Named { name } => quote(name.value, rest),
    }
}

/// The source unit behind an owner.
pub open spec fn unit_parts(unit: Option<Spanned<Seq<char>>>, rest: Parts) -> Parts {
    match unit {
        Some(text) => spaced(word("unit"@, spaced(quote(text.value, rest)))),
        None => rest,
    }
}

#[verifier::spinoff_prover]
#[verifier::rlimit(30)]
proof fn owner_written(owner: OwnerDeclarationModel, rest: Parts)
    requires
        legible(rest),
        ends(rest),
    ensures
        legible(owner_parts(owner, rest)),
        rendered(owner_parts(owner, rest)) == owner_text(owner) + rendered(rest),
{
    fixed_words();
    match owner {
        OwnerDeclarationModel::Analyzer { name, version } => {
            reveal_strlit("analyzer");
            reveal_strlit("analyzer ");
            reveal_strlit(" ");
            let last = quote(version.value, rest);
            quote_written(version.value, rest);
            spaced_written(last);
            quote_written(name.value, spaced(last));
            spaced_written(quote(name.value, spaced(last)));
            word_written("analyzer"@, spaced(quote(name.value, spaced(last))));
            assert("analyzer "@ =~= "analyzer"@ + seq![' ']);
            assert(" "@ =~= seq![' ']);
            assert(rendered(owner_parts(owner, rest)) =~= owner_text(owner) + rendered(rest));
        },
        OwnerDeclarationModel::Ai { contract_digest } => {
            reveal_strlit("ai");
            reveal_strlit("ai ");
            quote_written(contract_digest.value, rest);
            spaced_written(quote(contract_digest.value, rest));
            word_written("ai"@, spaced(quote(contract_digest.value, rest)));
            assert("ai "@ =~= "ai"@ + seq![' ']);
            assert(rendered(owner_parts(owner, rest)) =~= owner_text(owner) + rendered(rest));
        },
        OwnerDeclarationModel::User { .. } => {
            word_written("user"@, rest);
        },
        OwnerDeclarationModel::Named { name } => {
            quote_written(name.value, rest);
        },
    }
}

/// What `unit_parts` writes.
spec fn unit_form(unit: Option<Spanned<Seq<char>>>) -> Seq<char> {
    match unit {
        Some(text) => " unit "@ + literal(text.value),
        None => Seq::empty(),
    }
}

proof fn unit_written(unit: Option<Spanned<Seq<char>>>, rest: Parts)
    requires
        legible(rest),
        ends(rest),
    ensures
        legible(unit_parts(unit, rest)),
        rendered(unit_parts(unit, rest)) == unit_form(unit) + rendered(rest),
        ends(unit_parts(unit, rest)),
{
    fixed_words();
    if let Some(text) = unit {
        reveal_strlit("unit");
        reveal_strlit(" unit ");
        quote_written(text.value, rest);
        spaced_written(quote(text.value, rest));
        word_written("unit"@, spaced(quote(text.value, rest)));
        spaced_written(word("unit"@, spaced(quote(text.value, rest))));
        assert(" unit "@ =~= seq![' '] + "unit"@ + seq![' ']);
    }
    assert(rendered(unit_parts(unit, rest)) =~= unit_form(unit) + rendered(rest));
}

/// Whether a contribution block can be written.
pub open spec fn writable_contribution(block: ContributionBlockModel) -> bool {
    &&& forall|i: int| 0 <= i < block.evidence.len() ==> writable_evidence_block(#[trigger] block.evidence[i])
    &&& writable_block(block.comments, block.block_comments)
}

/// A contribution block.
pub open spec fn contribution_parts(depth: nat, block: ContributionBlockModel, rest: Parts) -> Parts {
    leading_parts(
        depth,
        block.comments.leading,
        0,
        indented(
            depth,
            directive(
                TokenKind::ByDirective,
                spaced(
                    owner_parts(
                        block.owner,
                        unit_parts(
                            block.unit,
                            contribution_braces(depth, block, rest),
                        ),
                    ),
                ),
            ),
        ),
    )
}

/// The contribution blocks from one on.
pub open spec fn contributions_parts(
    depth: nat,
    items: Seq<ContributionBlockModel>,
    from: int,
    rest: Parts,
) -> Parts
    decreases items.len() - from,
{
    if from < 0 || from >= items.len() {
        rest
    } else {
        broken(
            contribution_parts(
                depth,
                items[from],
                contributions_parts(depth, items, from + 1, rest),
            ),
        )
    }
}

/// What a contribution block holds.
spec fn contribution_body(depth: nat, block: ContributionBlockModel) -> Seq<char> {
    evidence_blocks_text(depth + 1, block.evidence, block.evidence.len() as int) + closing_comments(
        depth + 1,
        block.block_comments,
        block.evidence.len() > 0,
    )
}

/// What stands between the braces of a contribution block, with the braces.
pub open spec fn contribution_braces(depth: nat, block: ContributionBlockModel, rest: Parts) -> Parts {
    if contribution_is_empty(block) {
        hollow_parts(block.comments, rest)
    } else {
        open_parts(
            block.comments,
            evidence_blocks_parts(
                depth + 1,
                block.evidence,
                0,
                closing_parts(
                    depth + 1,
                    block.block_comments,
                    block.evidence.len() > 0,
                    close_parts(depth, rest),
                ),
            ),
        )
    }
}

#[verifier::spinoff_prover]
#[verifier::rlimit(30)]
proof fn contribution_braces_written(depth: nat, block: ContributionBlockModel, rest: Parts)
    requires
        writable_contribution(block),
        legible(rest),
    ensures
        legible(contribution_braces(depth, block, rest)),
        ends(contribution_braces(depth, block, rest)),
        rendered(contribution_braces(depth, block, rest)) == (if contribution_is_empty(block) {
            seq![' ', '{', '}'] + trailing_text(block.comments) + rendered(rest)
        } else {
            seq![' ', '{'] + trailing_text(block.comments) + (contribution_body(depth, block) + (line(
                depth,
                "}"@,
            ) + rendered(rest)))
        }),
{
    if contribution_is_empty(block) {
        hollow_written(block.comments, rest);
    } else {
        let close = close_parts(depth, rest);
        let remarks = closing_parts(
            depth + 1,
            block.block_comments,
            block.evidence.len() > 0,
            close,
        );
        let inside = evidence_blocks_parts(depth + 1, block.evidence, 0, remarks);
        close_written(depth, rest);
        closing_written(depth + 1, block.block_comments, block.evidence.len() > 0, close);
        evidence_blocks_written(depth + 1, block.evidence, 0, remarks);
        assert(evidence_blocks_text(depth + 1, block.evidence, 0) + rendered(inside) =~= rendered(
            inside,
        ));
        assert(rendered(inside) =~= contribution_body(depth, block) + rendered(close));
        open_written(block.comments, inside);
    }
}

#[verifier::spinoff_prover]
#[verifier::rlimit(30)]
proof fn contribution_head_written(block: ContributionBlockModel, open: Parts)
    requires
        legible(open),
        ends(open),
    ensures
        legible(
            directive(
                TokenKind::ByDirective,
                spaced(owner_parts(block.owner, unit_parts(block.unit, open))),
            ),
        ),
        rendered(
            directive(
                TokenKind::ByDirective,
                spaced(owner_parts(block.owner, unit_parts(block.unit, open))),
            ),
        ) == contribution_head(block) + rendered(open),
{
    let place = unit_parts(block.unit, open);
    unit_written(block.unit, open);
    let who = owner_parts(block.owner, place);
    owner_written(block.owner, place);
    spaced_written(who);
    directive_written(TokenKind::ByDirective, spaced(who));
    reveal_strlit("by");
    reveal_strlit("@by ");
    assert("@by "@ =~= seq!['@'] + "by"@ + seq![' ']);
    assert(seq!['@'] + "by"@ + (seq![' '] + (owner_text(block.owner) + (unit_form(block.unit)
        + rendered(open)))) =~= "@by "@ + owner_text(block.owner) + unit_form(block.unit) + rendered(
        open,
    ));
}

proof fn contribution_written(depth: nat, block: ContributionBlockModel, rest: Parts)
    requires
        writable_contribution(block),
        legible(rest),
    ensures
        legible(contribution_parts(depth, block, rest)),
        rendered(contribution_parts(depth, block, rest)) == contribution_text(depth, block)
            + rendered(rest),
{
    let open = contribution_braces(depth, block, rest);
    contribution_braces_written(depth, block, rest);
    contribution_head_written(block, open);
    let head = directive(
        TokenKind::ByDirective,
        spaced(owner_parts(block.owner, unit_parts(block.unit, open))),
    );
    indented_written(depth, head);
    leading_written(depth, block.comments.leading, indented(depth, head));
    block_joins(
        own_lines(depth, block.comments.leading),
        depth,
        contribution_head(block),
        block.comments,
        contribution_body(depth, block),
        rendered(rest),
    );
}

#[verifier::spinoff_prover]
#[verifier::rlimit(60)]
proof fn contributions_written(
    depth: nat,
    items: Seq<ContributionBlockModel>,
    from: int,
    rest: Parts,
)
    requires
        forall|i: int| 0 <= i < items.len() ==> writable_contribution(#[trigger] items[i]),
        0 <= from <= items.len(),
        legible(rest),
    ensures
        legible(contributions_parts(depth, items, from, rest)),
        contributions_text(depth, items, from) + rendered(
            contributions_parts(depth, items, from, rest),
        ) == contributions_text(depth, items, items.len() as int) + rendered(rest),
    decreases items.len() - from,
{
    if from < items.len() {
        reveal_strlit("\n");
        contributions_written(depth, items, from + 1, rest);
        let more = contributions_parts(depth, items, from + 1, rest);
        contribution_written(depth, items[from], more);
        broken_written(contribution_parts(depth, items[from], more));
        assert(contributions_text(depth, items, from) + rendered(
            contributions_parts(depth, items, from, rest),
        ) =~= contributions_text(depth, items, from + 1) + rendered(more));
    }
}

// -- Records -----------------------------------------------------------------------

/// Whether a record block can be written.
pub open spec fn writable_record(record: RecordBodyModel) -> bool {
    &&& forall|i: int| 0 <= i < record.properties.len() ==> writable_property(#[trigger] record.properties[i])
    &&& forall|i: int|
        0 <= i < record.contributions.len() ==> writable_contribution(#[trigger] record.contributions[i])
    &&& writable_block(record.comments, record.block_comments)
}

/// What stands between the braces of a record block, with the braces.
pub open spec fn record_parts(record: RecordBodyModel, rest: Parts) -> Parts {
    if record_is_empty(record) {
        hollow_parts(record.comments, rest)
    } else {
        open_parts(
            record.comments,
            properties_parts(
                1,
                sorted::<Property>(record.properties),
                0,
                contributions_parts(
                    1,
                    sorted::<ContributionBlock>(record.contributions),
                    0,
                    closing_parts(
                        1,
                        record.block_comments,
                        record.contributions.len() > 0,
                        close_parts(0, rest),
                    ),
                ),
            ),
        )
    }
}

/// Four texts one behind another, however they are bracketed.
proof fn four_join(first: Seq<char>, second: Seq<char>, third: Seq<char>, last: Seq<char>)
    ensures
        first + (second + (third + last)) == first + second + third + last,
{
    assert(first + (second + (third + last)) =~= first + second + third + last);
}

#[verifier::spinoff_prover]
#[verifier::rlimit(30)]
proof fn record_written(record: RecordBodyModel, rest: Parts)
    requires
        writable_record(record),
        legible(rest),
    ensures
        legible(record_parts(record, rest)),
        ends(record_parts(record, rest)),
        rendered(record_parts(record, rest)) == (if record_is_empty(record) {
            seq![' ', '{', '}'] + trailing_text(record.comments) + rendered(rest)
        } else {
            seq![' ', '{'] + trailing_text(record.comments) + (record_inside(record) + (line(
                0,
                "}"@,
            ) + rendered(rest)))
        }),
{
    if record_is_empty(record) {
        hollow_written(record.comments, rest);
    } else {
        let properties = sorted::<Property>(record.properties);
        let contributions = sorted::<ContributionBlock>(record.contributions);
        sorted_all::<Property>(record.properties, |p: PropertyModel| writable_property(p));
        assert forall|i: int| 0 <= i < properties.len() implies writable_property(
            #[trigger] properties[i],
        ) by {
            assert((|p: PropertyModel| writable_property(p))(properties[i]));
        }
        sorted_all::<ContributionBlock>(
            record.contributions,
            |b: ContributionBlockModel| writable_contribution(b),
        );
        assert forall|i: int| 0 <= i < contributions.len() implies writable_contribution(
            #[trigger] contributions[i],
        ) by {
            assert((|b: ContributionBlockModel| writable_contribution(b))(contributions[i]));
        }
        let close = close_parts(0, rest);
        close_written(0, rest);
        let blocks = record.contributions.len() > 0;
        let remarks = closing_parts(1, record.block_comments, blocks, close);
        closing_written(1, record.block_comments, blocks, close);
        let second = contributions_parts(1, contributions, 0, remarks);
        contributions_written(1, contributions, 0, remarks);
        assert(contributions_text(1, contributions, 0) + rendered(second) =~= rendered(second));
        let first = properties_parts(1, properties, 0, second);
        properties_written(1, properties, 0, second);
        assert(properties_text(1, properties, 0) + rendered(first) =~= rendered(first));
        four_join(
            properties_text(1, properties, properties.len() as int),
            contributions_text(1, contributions, contributions.len() as int),
            closing_comments(1, record.block_comments, blocks),
            rendered(close),
        );
        open_written(record.comments, first);
    }
}

/// A record with a head, led by its comments.
proof fn headed_written(head: Parts, text: Seq<char>, record: RecordBodyModel, rest: Parts)
    requires
        writable_record(record),
        legible(head),
        rendered(head) == text + rendered(record_parts(record, rest)),
        legible(rest),
    ensures
        legible(leading_parts(0, record.comments.leading, 0, indented(0, head))),
        rendered(leading_parts(0, record.comments.leading, 0, indented(0, head))) == own_lines(
            0,
            record.comments.leading,
        ) + record_text(text, record) + rendered(rest),
{
    record_written(record, rest);
    indented_written(0, head);
    leading_written(0, record.comments.leading, indented(0, head));
    block_joins(
        own_lines(0, record.comments.leading),
        0,
        text,
        record.comments,
        record_inside(record),
        rendered(rest),
    );
}

// -- Schemas -----------------------------------------------------------------------

/// Whether a schema field can be written.
pub open spec fn writable_field(field: SchemaFieldModel) -> bool {
    nameable(field.key.value) && tidy_comments(field.comments)
}

/// A field type.
pub open spec fn type_parts(found: FieldType, rest: Parts) -> Parts {
    if found.array {
        word(
            found.scalar.name(),
            sign(TokenKind::LeftBracket, sign(TokenKind::RightBracket, rest)),
        )
    } else {
        word(found.scalar.name(), rest)
    }
}

/// The mark of an optional field, and the colon behind it.
pub open spec fn optional_parts(optional: bool, rest: Parts) -> Parts {
    if optional {
        sign(TokenKind::Question, sign(TokenKind::Colon, rest))
    } else {
        sign(TokenKind::Colon, rest)
    }
}

/// One schema field.
pub open spec fn field_parts(field: SchemaFieldModel, last: bool, rest: Parts) -> Parts {
    leading_parts(
        1,
        field.comments.leading,
        0,
        indented(
            1,
            word(
                field.key.value,
                optional_parts(
                    field.optional,
                    spaced(
                        type_parts(
                            field.field_type.value,
                            entry_parts(last, field.comments, rest),
                        ),
                    ),
                ),
            ),
        ),
    )
}

/// The schema fields from one on.
pub open spec fn fields_parts(items: Seq<SchemaFieldModel>, from: int, rest: Parts) -> Parts
    decreases items.len() - from,
{
    if from < 0 || from >= items.len() {
        rest
    } else {
        field_parts(items[from], from == items.len() - 1, fields_parts(items, from + 1, rest))
    }
}

/// The names of the types are words.
pub proof fn type_names_are_words(scalar: ScalarType)
    ensures
        wordy(scalar.name()),
{
    reveal_strlit("boolean");
    reveal_strlit("integer");
    reveal_strlit("double");
    reveal_strlit("string");
    reveal_strlit("bytes");
    reveal_strlit("datetime");
}

proof fn type_written(found: FieldType, rest: Parts)
    requires
        legible(rest),
        ends(rest),
    ensures
        legible(type_parts(found, rest)),
        rendered(type_parts(found, rest)) == found.text() + rendered(rest),
{
    type_names_are_words(found.scalar);
    if found.array {
        reveal_strlit("[]");
        let close = sign(TokenKind::RightBracket, rest);
        sign_written(TokenKind::RightBracket, rest);
        sign_written(TokenKind::LeftBracket, close);
        word_written(found.scalar.name(), sign(TokenKind::LeftBracket, close));
        assert(rendered(type_parts(found, rest)) =~= found.text() + rendered(rest));
    } else {
        word_written(found.scalar.name(), rest);
    }
}

#[verifier::spinoff_prover]
#[verifier::rlimit(30)]
proof fn field_written(field: SchemaFieldModel, last: bool, rest: Parts)
    requires
        writable_field(field),
        legible(rest),
    ensures
        legible(field_parts(field, last, rest)),
        rendered(field_parts(field, last, rest)) == schema_field_text(field, last) + rendered(rest),
{
    reveal_strlit(": ");
    reveal_strlit("?");
    let end = entry_parts(last, field.comments, rest);
    entry_written(last, field.comments, rest);
    let found = type_parts(field.field_type.value, end);
    type_written(field.field_type.value, end);
    spaced_written(found);
    let colon = sign(TokenKind::Colon, spaced(found));
    sign_written(TokenKind::Colon, spaced(found));
    sign_written(TokenKind::Question, colon);
    let mark = optional_parts(field.optional, spaced(found));
    let key = word(field.key.value, mark);
    word_written(field.key.value, mark);
    indented_written(1, key);
    leading_written(1, field.comments.leading, indented(1, key));
    let name = field.key.value + (if field.optional {
        "?"@
    } else {
        Seq::empty()
    });
    assert(": "@ =~= seq![':', ' ']);
    assert("?"@ =~= seq!['?']);
    assert(rendered(key) =~= name + rendered(colon));
    line_with_trailing(
        1,
        name + ": "@ + field.field_type.value.text() + super::format::separator(last),
        field.comments,
    );
    entry_joins(
        own_lines(1, field.comments.leading),
        indent(1),
        name,
        field.field_type.value.text(),
        super::format::separator(last),
        trailing_text(field.comments),
        rendered(rest),
    );
}

proof fn fields_written(items: Seq<SchemaFieldModel>, from: int, rest: Parts)
    requires
        forall|i: int| 0 <= i < items.len() ==> writable_field(#[trigger] items[i]),
        0 <= from <= items.len(),
        legible(rest),
    ensures
        legible(fields_parts(items, from, rest)),
        schema_fields_text(items, from) + rendered(fields_parts(items, from, rest))
            == schema_fields_text(items, items.len() as int) + rendered(rest),
    decreases items.len() - from,
{
    if from < items.len() {
        fields_written(items, from + 1, rest);
        let more = fields_parts(items, from + 1, rest);
        field_written(items[from], from == items.len() - 1, more);
        assert(schema_fields_text(items, from) + rendered(fields_parts(items, from, rest))
            =~= schema_fields_text(items, from + 1) + rendered(more));
    }
}

/// Whether a schema can be written.
pub open spec fn writable_schema(schema: SchemaDeclarationModel) -> bool {
    &&& nameable(schema.name.value)
    &&& schema.endpoints matches Some(ends) ==> nameable(ends.source.value) && nameable(
        ends.target.value,
    )
    &&& forall|i: int| 0 <= i < schema.fields.len() ==> writable_field(#[trigger] schema.fields[i])
    &&& writable_block(schema.comments, schema.block_comments)
}

/// The endpoint constraint behind the name of a schema.
pub open spec fn constraint_parts(ends: Option<EndpointConstraintModel>, rest: Parts) -> Parts {
    match ends {
        Some(found) => spaced(
            sign(
                TokenKind::LeftParen,
                word(
                    found.source.value,
                    spaced(
                        sign(
                            TokenKind::Arrow,
                            spaced(
                                word(found.target.value, sign(TokenKind::RightParen, rest)),
                            ),
                        ),
                    ),
                ),
            ),
        ),
        None => rest,
    }
}

/// What stands between the braces of a schema, with the braces.
pub open spec fn schema_braces(schema: SchemaDeclarationModel, rest: Parts) -> Parts {
    if schema_is_empty(schema) {
        hollow_parts(schema.comments, rest)
    } else {
        open_parts(
            schema.comments,
            fields_parts(
                sorted::<SchemaField>(schema.fields),
                0,
                leading_parts(1, schema.block_comments, 0, close_parts(0, rest)),
            ),
        )
    }
}

/// A schema.
pub open spec fn schema_parts(schema: SchemaDeclarationModel, rest: Parts) -> Parts {
    leading_parts(
        0,
        schema.comments.leading,
        0,
        indented(
            0,
            word(
                "schema"@,
                spaced(
                    word(
                        schema.name.value,
                        constraint_parts(schema.endpoints, schema_braces(schema, rest)),
                    ),
                ),
            ),
        ),
    )
}

/// What `constraint_parts` writes.
spec fn constraint_form(ends: Option<EndpointConstraintModel>) -> Seq<char> {
    match ends {
        Some(found) => " ("@ + found.source.value + " -> "@ + found.target.value + ")"@,
        None => Seq::empty(),
    }
}

#[verifier::spinoff_prover]
#[verifier::rlimit(30)]
proof fn constraint_written(found: Option<EndpointConstraintModel>, rest: Parts)
    requires
        found matches Some(ends) ==> nameable(ends.source.value) && nameable(ends.target.value),
        legible(rest),
        ends(rest),
    ensures
        legible(constraint_parts(found, rest)),
        rendered(constraint_parts(found, rest)) == constraint_form(found) + rendered(rest),
        ends(constraint_parts(found, rest)),
{
    if let Some(pair) = found {
        reveal_strlit(" (");
        reveal_strlit(" -> ");
        reveal_strlit(")");
        let p1 = sign(TokenKind::RightParen, rest);
        sign_written(TokenKind::RightParen, rest);
        let p2 = word(pair.target.value, p1);
        word_written(pair.target.value, p1);
        spaced_written(p2);
        let p3 = sign(TokenKind::Arrow, spaced(p2));
        sign_written(TokenKind::Arrow, spaced(p2));
        spaced_written(p3);
        let p4 = word(pair.source.value, spaced(p3));
        word_written(pair.source.value, spaced(p3));
        sign_written(TokenKind::LeftParen, p4);
        spaced_written(sign(TokenKind::LeftParen, p4));
        assert(" ("@ =~= seq![' '] + seq!['(']);
        assert(" -> "@ =~= seq![' '] + seq!['-', '>'] + seq![' ']);
        assert(")"@ =~= seq![')']);
    }
    assert(rendered(constraint_parts(found, rest)) =~= constraint_form(found) + rendered(rest));
}

/// What a schema block holds.
spec fn schema_body(schema: SchemaDeclarationModel) -> Seq<char> {
    let fields = sorted::<SchemaField>(schema.fields);
    schema_fields_text(fields, fields.len() as int) + own_lines(1, schema.block_comments)
}

#[verifier::spinoff_prover]
#[verifier::rlimit(30)]
proof fn schema_braces_written(schema: SchemaDeclarationModel, rest: Parts)
    requires
        writable_schema(schema),
        legible(rest),
    ensures
        legible(schema_braces(schema, rest)),
        ends(schema_braces(schema, rest)),
        rendered(schema_braces(schema, rest)) == (if schema_is_empty(schema) {
            seq![' ', '{', '}'] + trailing_text(schema.comments) + rendered(rest)
        } else {
            seq![' ', '{'] + trailing_text(schema.comments) + (schema_body(schema) + (line(0, "}"@)
                + rendered(rest)))
        }),
{
    if schema_is_empty(schema) {
        hollow_written(schema.comments, rest);
    } else {
        let fields = sorted::<SchemaField>(schema.fields);
        sorted_all::<SchemaField>(schema.fields, |f: SchemaFieldModel| writable_field(f));
        assert forall|i: int| 0 <= i < fields.len() implies writable_field(#[trigger] fields[i]) by {
            assert((|f: SchemaFieldModel| writable_field(f))(fields[i]));
        }
        let close = close_parts(0, rest);
        close_written(0, rest);
        let remarks = leading_parts(1, schema.block_comments, 0, close);
        leading_written(1, schema.block_comments, close);
        let inside = fields_parts(fields, 0, remarks);
        fields_written(fields, 0, remarks);
        assert(schema_fields_text(fields, 0) + rendered(inside) =~= rendered(inside));
        assert(rendered(inside) =~= schema_body(schema) + rendered(close));
        open_written(schema.comments, inside);
    }
}

#[verifier::spinoff_prover]
#[verifier::rlimit(30)]
proof fn schema_written(schema: SchemaDeclarationModel, rest: Parts)
    requires
        writable_schema(schema),
        legible(rest),
    ensures
        legible(schema_parts(schema, rest)),
        rendered(schema_parts(schema, rest)) == schema_text(schema) + rendered(rest),
{
    fixed_words();
    reveal_strlit("schema");
    reveal_strlit("schema ");
    let open = schema_braces(schema, rest);
    schema_braces_written(schema, rest);
    let ends = constraint_parts(schema.endpoints, open);
    constraint_written(schema.endpoints, open);
    let name = word(schema.name.value, ends);
    word_written(schema.name.value, ends);
    spaced_written(name);
    let head = word("schema"@, spaced(name));
    word_written("schema"@, spaced(name));
    assert("schema "@ =~= "schema"@ + seq![' ']);
    assert(rendered(head) =~= schema_head(schema) + rendered(open));
    indented_written(0, head);
    leading_written(0, schema.comments.leading, indented(0, head));
    block_joins(
        own_lines(0, schema.comments.leading),
        0,
        schema_head(schema),
        schema.comments,
        schema_body(schema),
        rendered(rest),
    );
}

// -- Nodes, edges and links --------------------------------------------------------

/// The names from one on.
pub open spec fn names_parts(items: Seq<Spanned<Seq<char>>>, from: int, rest: Parts) -> Parts
    decreases items.len() - from,
{
    if from < 0 || from >= items.len() {
        rest
    } else if from == items.len() - 1 {
        word(items[from].value, rest)
    } else {
        word(
            items[from].value,
            sign(TokenKind::Comma, spaced(names_parts(items, from + 1, rest))),
        )
    }
}

#[verifier::spinoff_prover]
#[verifier::rlimit(30)]
proof fn names_written(items: Seq<Spanned<Seq<char>>>, from: int, rest: Parts)
    requires
        forall|i: int| 0 <= i < items.len() ==> nameable((#[trigger] items[i]).value),
        0 <= from < items.len(),
        legible(rest),
        ends(rest),
    ensures
        legible(names_parts(items, from, rest)),
        names_text(items, from) + (if from > 0 {
            ", "@
        } else {
            Seq::empty()
        }) + rendered(names_parts(items, from, rest)) == names_text(items, items.len() as int)
            + rendered(rest),
    decreases items.len() - from,
{
    reveal_strlit(", ");
    reveal_with_fuel(names_text, 2);
    let item = items[from].value;
    assert(nameable(items[from].value));
    let here = rendered(names_parts(items, from, rest));
    if from == items.len() - 1 {
        word_written(item, rest);
        if from == 0 {
            assert(names_text(items, 0) + Seq::<char>::empty() + here =~= names_text(items, 1)
                + rendered(rest));
        } else {
            assert(names_text(items, from) + ", "@ + here =~= names_text(items, from + 1)
                + rendered(rest));
        }
    } else {
        names_written(items, from + 1, rest);
        let more = names_parts(items, from + 1, rest);
        spaced_written(more);
        sign_written(TokenKind::Comma, spaced(more));
        word_written(item, sign(TokenKind::Comma, spaced(more)));
        assert(", "@ =~= seq![','] + seq![' ']);
        assert(here =~= item + ", "@ + rendered(more));
        if from == 0 {
            assert(names_text(items, 0) + Seq::<char>::empty() + here =~= names_text(items, 1)
                + ", "@ + rendered(more));
        } else {
            assert(names_text(items, from) + ", "@ + here =~= names_text(items, from + 1) + ", "@
                + rendered(more));
        }
    }
}

/// Whether a node can be written.
pub open spec fn writable_node(node: NodeDeclarationModel) -> bool {
    &&& nameable(node.name.value)
    &&& node.schemas.len() > 0
    &&& forall|i: int| 0 <= i < node.schemas.len() ==> nameable((#[trigger] node.schemas[i]).value)
    &&& writable_record(node.record)
}

/// A node.
pub open spec fn node_parts(node: NodeDeclarationModel, rest: Parts) -> Parts {
    leading_parts(
        0,
        node.record.comments.leading,
        0,
        indented(
            0,
            word(
                "node"@,
                spaced(
                    word(
                        node.name.value,
                        sign(
                            TokenKind::Colon,
                            spaced(
                                names_parts(
                                    sorted::<Spanned<String>>(node.schemas),
                                    0,
                                    record_parts(node.record, rest),
                                ),
                            ),
                        ),
                    ),
                ),
            ),
        ),
    )
}

#[verifier::spinoff_prover]
#[verifier::rlimit(30)]
proof fn node_written(node: NodeDeclarationModel, rest: Parts)
    requires
        writable_node(node),
        legible(rest),
    ensures
        legible(node_parts(node, rest)),
        rendered(node_parts(node, rest)) == node_text(node) + rendered(rest),
{
    fixed_words();
    reveal_strlit("node");
    reveal_strlit("node ");
    reveal_strlit(": ");
    let names = sorted::<Spanned<String>>(node.schemas);
    sorted_all::<Spanned<String>>(node.schemas, |s: Spanned<Seq<char>>| nameable(s.value));
    assert forall|i: int| 0 <= i < names.len() implies nameable((#[trigger] names[i]).value) by {
        assert((|s: Spanned<Seq<char>>| nameable(s.value))(names[i]));
    }
    let record = record_parts(node.record, rest);
    record_written(node.record, rest);
    let list = names_parts(names, 0, record);
    names_written(names, 0, record);
    assert(names_text(names, 0) + Seq::<char>::empty() + rendered(list) =~= rendered(list));
    spaced_written(list);
    let colon = sign(TokenKind::Colon, spaced(list));
    sign_written(TokenKind::Colon, spaced(list));
    let name = word(node.name.value, colon);
    word_written(node.name.value, colon);
    spaced_written(name);
    let head = word("node"@, spaced(name));
    word_written("node"@, spaced(name));
    assert("node "@ =~= "node"@ + seq![' ']);
    assert(": "@ =~= seq![':'] + seq![' ']);
    assert(rendered(head) =~= node_head(node) + rendered(record));
    headed_written(head, node_head(node), node.record, rest);
}

/// Whether an endpoint can be written.
pub open spec fn writable_endpoint(endpoint: EndpointModel) -> bool {
    match endpoint {
        EndpointModel::Local(name) => nameable(name.value),
        EndpointModel::Aliased { alias, name } => nameable(alias.value) && nameable(name.value),
        EndpointModel::Locator { name, .. } => nameable(name.value),
    }
}

/// An endpoint.
pub open spec fn endpoint_parts(endpoint: EndpointModel, rest: Parts) -> Parts {
    match endpoint {
        EndpointModel::Local(name) => word(name.value, rest),
        EndpointModel::Aliased { alias, name } => word(
            alias.value,
            sign(TokenKind::ColonColon, word(name.value, rest)),
        ),
        EndpointModel::Locator { locator, name } => quote(
            locator.value,
            sign(TokenKind::ColonColon, word(name.value, rest)),
        ),
    }
}

proof fn endpoint_written(endpoint: EndpointModel, rest: Parts)
    requires
        writable_endpoint(endpoint),
        legible(rest),
        ends(rest),
    ensures
        legible(endpoint_parts(endpoint, rest)),
        rendered(endpoint_parts(endpoint, rest)) == endpoint_text(endpoint) + rendered(rest),
{
    reveal_strlit("::");
    assert("::"@ =~= seq![':', ':']);
    match endpoint {
        EndpointModel::Local(name) => {
            word_written(name.value, rest);
        },
        EndpointModel::Aliased { alias, name } => {
            word_written(name.value, rest);
            sign_written(TokenKind::ColonColon, word(name.value, rest));
            word_written(alias.value, sign(TokenKind::ColonColon, word(name.value, rest)));
            assert(rendered(endpoint_parts(endpoint, rest)) =~= endpoint_text(endpoint) + rendered(
                rest,
            ));
        },
        EndpointModel::Locator { locator, name } => {
            word_written(name.value, rest);
            sign_written(TokenKind::ColonColon, word(name.value, rest));
            quote_written(locator.value, sign(TokenKind::ColonColon, word(name.value, rest)));
            assert(rendered(endpoint_parts(endpoint, rest)) =~= endpoint_text(endpoint) + rendered(
                rest,
            ));
        },
    }
}

/// Whether an edge can be written.
pub open spec fn writable_edge(edge: EdgeDeclarationModel) -> bool {
    writable_endpoint(edge.source) && writable_endpoint(edge.target) && nameable(
        edge.relation.value,
    ) && writable_record(edge.record)
}

/// An edge.
pub open spec fn edge_parts(edge: EdgeDeclarationModel, rest: Parts) -> Parts {
    leading_parts(
        0,
        edge.record.comments.leading,
        0,
        indented(
            0,
            word(
                "edge"@,
                spaced(
                    endpoint_parts(
                        edge.source,
                        spaced(
                            sign(
                                TokenKind::Arrow,
                                spaced(
                                    endpoint_parts(
                                        edge.target,
                                        spaced(
                                            sign(
                                                TokenKind::Colon,
                                                word(
                                                    edge.relation.value,
                                                    record_parts(edge.record, rest),
                                                ),
                                            ),
                                        ),
                                    ),
                                ),
                            ),
                        ),
                    ),
                ),
            ),
        ),
    )
}

/// The pieces of the head of an edge, however they are bracketed.
proof fn edge_joins(source: Seq<char>, target: Seq<char>, relation: Seq<char>, rest: Seq<char>)
    ensures
        "edge"@ + (seq![' '] + (source + (seq![' '] + (seq!['-', '>'] + (seq![' '] + (target + (
        seq![' '] + (seq![':'] + (relation + rest))))))))) == "edge "@ + source + " -> "@ + target
            + " :"@ + relation + rest,
{
    reveal_strlit("edge");
    reveal_strlit("edge ");
    reveal_strlit(" -> ");
    reveal_strlit(" :");
    assert("edge "@ =~= "edge"@ + seq![' ']);
    assert(" -> "@ =~= seq![' '] + seq!['-', '>'] + seq![' ']);
    assert(" :"@ =~= seq![' '] + seq![':']);
    assert("edge"@ + (seq![' '] + (source + (seq![' '] + (seq!['-', '>'] + (seq![' '] + (target + (
    seq![' '] + (seq![':'] + (relation + rest))))))))) =~= "edge "@ + source + " -> "@ + target
        + " :"@ + relation + rest);
}

#[verifier::spinoff_prover]
#[verifier::rlimit(30)]
proof fn edge_written(edge: EdgeDeclarationModel, rest: Parts)
    requires
        writable_edge(edge),
        legible(rest),
    ensures
        legible(edge_parts(edge, rest)),
        rendered(edge_parts(edge, rest)) == edge_text(edge) + rendered(rest),
{
    fixed_words();
    let record = record_parts(edge.record, rest);
    record_written(edge.record, rest);
    let relation = word(edge.relation.value, record);
    word_written(edge.relation.value, record);
    assert(peek(rendered(relation), 0) != Some(':')) by {
        assert(rendered(relation)[0] == edge.relation.value[0]);
    }
    let colon = sign(TokenKind::Colon, relation);
    sign_written(TokenKind::Colon, relation);
    spaced_written(colon);
    let target = endpoint_parts(edge.target, spaced(colon));
    endpoint_written(edge.target, spaced(colon));
    spaced_written(target);
    let arrow = sign(TokenKind::Arrow, spaced(target));
    sign_written(TokenKind::Arrow, spaced(target));
    spaced_written(arrow);
    let source = endpoint_parts(edge.source, spaced(arrow));
    endpoint_written(edge.source, spaced(arrow));
    spaced_written(source);
    let head = word("edge"@, spaced(source));
    word_written("edge"@, spaced(source));
    edge_joins(
        endpoint_text(edge.source),
        endpoint_text(edge.target),
        edge.relation.value,
        rendered(record),
    );
    headed_written(head, edge_head(edge), edge.record, rest);
}

/// Whether a link can be written.
pub open spec fn writable_link(link: LinkDeclarationModel) -> bool {
    &&& tidy_comments(link.comments)
    &&& link.alias matches Some(alias) ==> nameable(alias.value)
}

/// The alias of a link.
pub open spec fn alias_parts(alias: Option<Spanned<Seq<char>>>, rest: Parts) -> Parts {
    match alias {
        Some(name) => spaced(word("as"@, spaced(word(name.value, rest)))),
        None => rest,
    }
}

/// A link.
pub open spec fn link_parts(link: LinkDeclarationModel, rest: Parts) -> Parts {
    leading_parts(
        0,
        link.comments.leading,
        0,
        indented(
            0,
            directive(
                TokenKind::LinkDirective,
                spaced(
                    quote(
                        link.source.value,
                        alias_parts(link.alias, trailing_parts(link.comments, rest)),
                    ),
                ),
            ),
        ),
    )
}

#[verifier::spinoff_prover]
#[verifier::rlimit(30)]
proof fn link_written(link: LinkDeclarationModel, rest: Parts)
    requires
        writable_link(link),
        legible(rest),
    ensures
        legible(link_parts(link, rest)),
        rendered(link_parts(link, rest)) == link_text(link) + rendered(rest),
{
    fixed_words();
    reveal_strlit("link");
    reveal_strlit("@link ");
    reveal_strlit("as");
    reveal_strlit(" as ");
    let end = trailing_parts(link.comments, rest);
    trailing_written(link.comments, rest);
    let alias = alias_parts(link.alias, end);
    let form = match link.alias {
        Some(name) => " as "@ + name.value,
        None => Seq::<char>::empty(),
    };
    if let Some(name) = link.alias {
        word_written(name.value, end);
        spaced_written(word(name.value, end));
        word_written("as"@, spaced(word(name.value, end)));
        spaced_written(word("as"@, spaced(word(name.value, end))));
        assert(" as "@ =~= seq![' '] + "as"@ + seq![' ']);
    }
    assert(rendered(alias) =~= form + rendered(end));
    let source = quote(link.source.value, alias);
    quote_written(link.source.value, alias);
    spaced_written(source);
    let head = directive(TokenKind::LinkDirective, spaced(source));
    directive_written(TokenKind::LinkDirective, spaced(source));
    assert("@link "@ =~= seq!['@'] + "link"@ + seq![' ']);
    let text = "@link "@ + literal(link.source.value) + form;
    assert(rendered(head) =~= text + trailing_text(link.comments) + rendered(rest));
    indented_written(0, head);
    leading_written(0, link.comments.leading, indented(0, head));
    line_with_trailing(0, text, link.comments);
    assert(rendered(link_parts(link, rest)) =~= link_text(link) + rendered(rest));
}

// -- Files -------------------------------------------------------------------------

/// The links from one on.
pub open spec fn links_parts(items: Seq<LinkDeclarationModel>, from: int, rest: Parts) -> Parts
    decreases items.len() - from,
{
    if from < 0 || from >= items.len() {
        rest
    } else {
        link_parts(items[from], links_parts(items, from + 1, rest))
    }
}

/// The schemas from one on.
pub open spec fn schemas_parts(items: Seq<SchemaDeclarationModel>, from: int, rest: Parts) -> Parts
    decreases items.len() - from,
{
    if from < 0 || from >= items.len() {
        rest
    } else {
        broken(schema_parts(items[from], schemas_parts(items, from + 1, rest)))
    }
}

/// The nodes from one on.
pub open spec fn nodes_parts(items: Seq<NodeDeclarationModel>, from: int, rest: Parts) -> Parts
    decreases items.len() - from,
{
    if from < 0 || from >= items.len() {
        rest
    } else {
        broken(node_parts(items[from], nodes_parts(items, from + 1, rest)))
    }
}

/// The edges from one on.
pub open spec fn edges_parts(items: Seq<EdgeDeclarationModel>, from: int, rest: Parts) -> Parts
    decreases items.len() - from,
{
    if from < 0 || from >= items.len() {
        rest
    } else {
        broken(edge_parts(items[from], edges_parts(items, from + 1, rest)))
    }
}

proof fn links_written(items: Seq<LinkDeclarationModel>, from: int, rest: Parts)
    requires
        forall|i: int| 0 <= i < items.len() ==> writable_link(#[trigger] items[i]),
        0 <= from <= items.len(),
        legible(rest),
    ensures
        legible(links_parts(items, from, rest)),
        links_text(items, from) + rendered(links_parts(items, from, rest)) == links_text(
            items,
            items.len() as int,
        ) + rendered(rest),
    decreases items.len() - from,
{
    if from < items.len() {
        links_written(items, from + 1, rest);
        let more = links_parts(items, from + 1, rest);
        link_written(items[from], more);
        assert(links_text(items, from) + rendered(links_parts(items, from, rest)) =~= links_text(
            items,
            from + 1,
        ) + rendered(more));
    }
}

proof fn schemas_written(items: Seq<SchemaDeclarationModel>, from: int, rest: Parts)
    requires
        forall|i: int| 0 <= i < items.len() ==> writable_schema(#[trigger] items[i]),
        0 <= from <= items.len(),
        legible(rest),
    ensures
        legible(schemas_parts(items, from, rest)),
        schemas_text(items, from) + rendered(schemas_parts(items, from, rest)) == schemas_text(
            items,
            items.len() as int,
        ) + rendered(rest),
    decreases items.len() - from,
{
    if from < items.len() {
        reveal_strlit("\n");
        schemas_written(items, from + 1, rest);
        let more = schemas_parts(items, from + 1, rest);
        schema_written(items[from], more);
        broken_written(schema_parts(items[from], more));
        assert(schemas_text(items, from) + rendered(schemas_parts(items, from, rest))
            =~= schemas_text(items, from + 1) + rendered(more));
    }
}

proof fn nodes_written(items: Seq<NodeDeclarationModel>, from: int, rest: Parts)
    requires
        forall|i: int| 0 <= i < items.len() ==> writable_node(#[trigger] items[i]),
        0 <= from <= items.len(),
        legible(rest),
    ensures
        legible(nodes_parts(items, from, rest)),
        nodes_text(items, from) + rendered(nodes_parts(items, from, rest)) == nodes_text(
            items,
            items.len() as int,
        ) + rendered(rest),
    decreases items.len() - from,
{
    if from < items.len() {
        reveal_strlit("\n");
        nodes_written(items, from + 1, rest);
        let more = nodes_parts(items, from + 1, rest);
        node_written(items[from], more);
        broken_written(node_parts(items[from], more));
        assert(nodes_text(items, from) + rendered(nodes_parts(items, from, rest)) =~= nodes_text(
            items,
            from + 1,
        ) + rendered(more));
    }
}

proof fn edges_written(items: Seq<EdgeDeclarationModel>, from: int, rest: Parts)
    requires
        forall|i: int| 0 <= i < items.len() ==> writable_edge(#[trigger] items[i]),
        0 <= from <= items.len(),
        legible(rest),
    ensures
        legible(edges_parts(items, from, rest)),
        edges_text(items, from) + rendered(edges_parts(items, from, rest)) == edges_text(
            items,
            items.len() as int,
        ) + rendered(rest),
    decreases items.len() - from,
{
    if from < items.len() {
        reveal_strlit("\n");
        edges_written(items, from + 1, rest);
        let more = edges_parts(items, from + 1, rest);
        edge_written(items[from], more);
        broken_written(edge_parts(items[from], more));
        assert(edges_text(items, from) + rendered(edges_parts(items, from, rest)) =~= edges_text(
            items,
            from + 1,
        ) + rendered(more));
    }
}

/// Whether a file can be written so that it is read back as it was.
pub open spec fn writable(file: SourceFileModel) -> bool {
    &&& tidy_comments(file.version_comments)
    &&& forall|i: int| 0 <= i < file.links.len() ==> writable_link(#[trigger] file.links[i])
    &&& forall|i: int| 0 <= i < file.schemas.len() ==> writable_schema(#[trigger] file.schemas[i])
    &&& forall|i: int| 0 <= i < file.nodes.len() ==> writable_node(#[trigger] file.nodes[i])
    &&& forall|i: int| 0 <= i < file.edges.len() ==> writable_edge(#[trigger] file.edges[i])
    &&& all_tidy(file.trailing_comments)
}

/// The version header.
pub open spec fn header_parts(version: u32, comments: CommentsModel, rest: Parts) -> Parts {
    leading_parts(
        0,
        comments.leading,
        0,
        indented(
            0,
            directive(
                TokenKind::NostDirective,
                spaced(
                    number(
                        TokenKind::IntegerLiteral,
                        digits_of(version as nat),
                        trailing_parts(comments, rest),
                    ),
                ),
            ),
        ),
    )
}

/// The group of links.
pub open spec fn link_group_parts(links: Seq<LinkDeclarationModel>, rest: Parts) -> Parts {
    if links.len() == 0 {
        rest
    } else {
        broken(links_parts(links, 0, rest))
    }
}

/// The declarations and comments behind the links.
pub open spec fn declarations_parts(file: SourceFileModel) -> Parts {
    schemas_parts(
        sorted::<SchemaDeclaration>(file.schemas),
        0,
        nodes_parts(
            sorted::<NodeDeclaration>(file.nodes),
            0,
            edges_parts(
                sorted::<EdgeDeclaration>(file.edges),
                0,
                closing_parts(0, file.trailing_comments, true, Parts::End { gap: Seq::empty() }),
            ),
        ),
    )
}

/// A whole file.
pub open spec fn file_parts(file: SourceFileModel) -> Parts {
    header_parts(
        file.version.value,
        file.version_comments,
        link_group_parts(sorted::<LinkDeclaration>(file.links), declarations_parts(file)),
    )
}

#[verifier::spinoff_prover]
#[verifier::rlimit(30)]
proof fn header_written(file: SourceFileModel, rest: Parts)
    requires
        tidy_comments(file.version_comments),
        legible(rest),
    ensures
        legible(header_parts(file.version.value, file.version_comments, rest)),
        rendered(header_parts(file.version.value, file.version_comments, rest)) == header_text(file)
            + rendered(rest),
{
    reveal_strlit("nost");
    reveal_strlit("@nost ");
    let comments = file.version_comments;
    let end = trailing_parts(comments, rest);
    trailing_written(comments, rest);
    let digits = digits_of(file.version.value as nat);
    shown_is_numeral(file.version.value as int);
    let version = number(TokenKind::IntegerLiteral, digits, end);
    number_written(TokenKind::IntegerLiteral, digits, end);
    spaced_written(version);
    let head = directive(TokenKind::NostDirective, spaced(version));
    directive_written(TokenKind::NostDirective, spaced(version));
    assert("@nost "@ =~= seq!['@'] + "nost"@ + seq![' ']);
    let text = "@nost "@ + digits;
    assert(rendered(head) =~= text + trailing_text(comments) + rendered(rest));
    indented_written(0, head);
    leading_written(0, comments.leading, indented(0, head));
    line_with_trailing(0, text, comments);
    assert(rendered(header_parts(file.version.value, comments, rest)) =~= header_text(file)
        + rendered(rest));
}

#[verifier::spinoff_prover]
#[verifier::rlimit(30)]
proof fn declarations_written(file: SourceFileModel)
    requires
        writable(file),
    ensures
        legible(declarations_parts(file)),
        rendered(declarations_parts(file)) == ({
            let schemas = sorted::<SchemaDeclaration>(file.schemas);
            let nodes = sorted::<NodeDeclaration>(file.nodes);
            let edges = sorted::<EdgeDeclaration>(file.edges);
            schemas_text(schemas, schemas.len() as int) + (nodes_text(nodes, nodes.len() as int) + (
            edges_text(edges, edges.len() as int) + closing_comments(
                0,
                file.trailing_comments,
                true,
            )))
        }),
{
    let schemas = sorted::<SchemaDeclaration>(file.schemas);
    let nodes = sorted::<NodeDeclaration>(file.nodes);
    let edges = sorted::<EdgeDeclaration>(file.edges);
    sorted_all::<SchemaDeclaration>(file.schemas, |d: SchemaDeclarationModel| writable_schema(d));
    assert forall|i: int| 0 <= i < schemas.len() implies writable_schema(#[trigger] schemas[i]) by {
        assert((|d: SchemaDeclarationModel| writable_schema(d))(schemas[i]));
    }
    sorted_all::<NodeDeclaration>(file.nodes, |d: NodeDeclarationModel| writable_node(d));
    assert forall|i: int| 0 <= i < nodes.len() implies writable_node(#[trigger] nodes[i]) by {
        assert((|d: NodeDeclarationModel| writable_node(d))(nodes[i]));
    }
    sorted_all::<EdgeDeclaration>(file.edges, |d: EdgeDeclarationModel| writable_edge(d));
    assert forall|i: int| 0 <= i < edges.len() implies writable_edge(#[trigger] edges[i]) by {
        assert((|d: EdgeDeclarationModel| writable_edge(d))(edges[i]));
    }
    let end = Parts::End { gap: Seq::empty() };
    let p1 = closing_parts(0, file.trailing_comments, true, end);
    closing_written(0, file.trailing_comments, true, end);
    let closing = closing_comments(0, file.trailing_comments, true);
    assert(rendered(p1) =~= closing);
    let p2 = edges_parts(edges, 0, p1);
    edges_written(edges, 0, p1);
    assert(edges_text(edges, 0) + rendered(p2) =~= rendered(p2));
    let p3 = nodes_parts(nodes, 0, p2);
    nodes_written(nodes, 0, p2);
    assert(nodes_text(nodes, 0) + rendered(p3) =~= rendered(p3));
    let p4 = schemas_parts(schemas, 0, p3);
    schemas_written(schemas, 0, p3);
    assert(schemas_text(schemas, 0) + rendered(p4) =~= rendered(p4));
}

proof fn link_group_written(file: SourceFileModel, rest: Parts)
    requires
        writable(file),
        legible(rest),
    ensures
        legible(link_group_parts(sorted::<LinkDeclaration>(file.links), rest)),
        rendered(link_group_parts(sorted::<LinkDeclaration>(file.links), rest)) == link_group(file)
            + rendered(rest),
{
    reveal_strlit("\n");
    let links = sorted::<LinkDeclaration>(file.links);
    sorted_all::<LinkDeclaration>(file.links, |d: LinkDeclarationModel| writable_link(d));
    assert forall|i: int| 0 <= i < links.len() implies writable_link(#[trigger] links[i]) by {
        assert((|d: LinkDeclarationModel| writable_link(d))(links[i]));
    }
    let first = links_parts(links, 0, rest);
    links_written(links, 0, rest);
    assert(links_text(links, 0) + rendered(first) =~= rendered(first));
    broken_written(first);
    assert("\n"@ =~= seq!['\n']);
    if links.len() > 0 {
        let text = links_text(links, links.len() as int);
        assert(seq!['\n'] + (text + rendered(rest)) =~= seq!['\n'] + text + rendered(rest));
    } else {
        assert(Seq::<char>::empty() + rendered(rest) =~= rendered(rest));
    }
}

/// The pieces of a file, however they are bracketed.
proof fn file_joins(
    header: Seq<char>,
    links: Seq<char>,
    schemas: Seq<char>,
    nodes: Seq<char>,
    edges: Seq<char>,
    closing: Seq<char>,
)
    ensures
        header + (links + (schemas + (nodes + (edges + closing)))) == header + links + schemas + nodes
            + edges + closing,
{
    assert(header + (links + (schemas + (nodes + (edges + closing)))) =~= header + links + schemas
        + nodes + edges + closing);
}

/// A file that can be written is written as its parts, each of which is legible.
pub proof fn file_is_written(file: SourceFileModel)
    requires
        writable(file),
    ensures
        legible(file_parts(file)),
        rendered(file_parts(file)) == formatted(file),
{
    let schemas = sorted::<SchemaDeclaration>(file.schemas);
    let nodes = sorted::<NodeDeclaration>(file.nodes);
    let edges = sorted::<EdgeDeclaration>(file.edges);
    let rest = declarations_parts(file);
    declarations_written(file);
    link_group_written(file, rest);
    header_written(file, link_group_parts(sorted::<LinkDeclaration>(file.links), rest));
    file_joins(
        header_text(file),
        link_group(file),
        schemas_text(schemas, schemas.len() as int),
        nodes_text(nodes, nodes.len() as int),
        edges_text(edges, edges.len() as int),
        closing_comments(0, file.trailing_comments, true),
    );
}

} // verus!
