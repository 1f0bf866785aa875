//! The parser keeps every comment in its place, and the formatter keeps every comment.

use super::contribution_comments;
use super::evidence_comments;
use super::evidence_field_comments;
use super::field_comments;
use super::link_comments;
use super::optional_comment;
use super::property_comments;
use super::record_comments;
use super::schema_comments;
use super::CommentModel;
use super::CommentsModel;
use super::ContributionBlockModel;
use super::DeclarationRef;
use super::EvidenceBlockModel;
use super::EvidenceFieldModel;
use super::LinkDeclarationModel;
use super::PropertyModel;
use super::SchemaFieldModel;
use super::SourceFileModel;
use super::Spanned;
use super::ValueModel;
use super::clean::number_kind;
use super::format::formatted;
use super::lexer::lexed;
use super::lexer::piece_at;
use super::lexer::pieces_are_bounded;
use super::lexer::starts_line;
use super::lexer::token_of;
use super::lexer::tokens_of;
use super::lexer::Keyword;
use super::lexer::TokenKind;
use super::lexer::TokenModel;
use super::lexer::TriviaKind;
use super::parser::closed;
use super::parser::comment_of;
use super::parser::constraint;
use super::parser::contribution;
use super::parser::contribution_moves;
use super::parser::contributions;
use super::parser::declarations;
use super::parser::eaten;
use super::parser::edge;
use super::parser::edge_moves;
use super::parser::endpoint;
use super::parser::entry_end;
use super::parser::evidence;
use super::parser::evidence_blocks;
use super::parser::evidence_field;
use super::parser::evidence_field_moves;
use super::parser::evidence_fields;
use super::parser::evidence_moves;
use super::parser::evidence_value;
use super::parser::expected;
use super::parser::field_type;
use super::parser::file_of;
use super::parser::header;
use super::parser::here;
use super::parser::identifier;
use super::parser::identifier_moves;
use super::parser::is_comment;
use super::parser::kind;
use super::parser::link;
use super::parser::link_moves;
use super::parser::links;
use super::parser::more_schemas;
use super::parser::names;
use super::parser::node;
use super::parser::node_moves;
use super::parser::owner;
use super::parser::parsed;
use super::parser::properties;
use super::parser::property;
use super::parser::property_moves;
use super::parser::quoted;
use super::parser::record_body;
use super::parser::scalar;
use super::parser::scalar_moves;
use super::parser::scalars;
use super::parser::schema;
use super::parser::schema_field;
use super::parser::schema_field_moves;
use super::parser::schema_fields;
use super::parser::schema_moves;
use super::parser::skip;
use super::parser::skip_by_index;
use super::parser::skip_moves;
use super::parser::step;
use super::parser::taken;
use super::parser::remarked;
use super::parser::trailing;
use super::parser::trailing_at;
use super::parser::trailing_moves;
use super::parser::type_word;
use super::parser::unit;
use super::parser::value;
use super::parser::Cursor;
use super::parser::Declarations;
use super::remarks::comments_survive;
use super::remarks::few_enough;
use super::remarks::grown;
use super::remarks::points_within;
use super::remarks::with_next;
use super::remarks::said;
use super::reread::skip_twice;
use vstd::prelude::*;

verus! {

// -- Comments that are still to come -----------------------------------------------

/// The comments among the tokens from an index on, in order.
pub open spec fn heard_from(tokens: Seq<TokenModel>, index: int) -> Seq<CommentModel>
    decreases tokens.len() - index,
{
    if index >= tokens.len() {
        Seq::empty()
    } else if index >= 0 && is_comment(tokens[index]) {
        seq![comment_of(tokens[index])] + heard_from(tokens, index + 1)
    } else {
        heard_from(tokens, index + 1)
    }
}

/// The comments of a source, in order.
pub open spec fn heard(tokens: Seq<TokenModel>) -> Seq<CommentModel> {
    heard_from(tokens, 0)
}

/// What a cursor still owes: the comments it has read and given to nothing, and those to come.
spec fn owed(tokens: Seq<TokenModel>, cursor: Cursor) -> Seq<CommentModel> {
    cursor.pending + heard_from(tokens, cursor.index)
}

// -- The comments of lists ---------------------------------------------------------

/// The comments of the first `count` items of a list.
spec fn listed<A>(items: Seq<A>, of: spec_fn(A) -> Seq<CommentModel>, count: int) -> Seq<
    CommentModel,
>
    decreases count,
{
    if count <= 0 {
        Seq::empty()
    } else {
        listed(items, of, count - 1) + of(items[count - 1])
    }
}

/// The comments of a list.
spec fn listed_of<A>(items: Seq<A>, of: spec_fn(A) -> Seq<CommentModel>) -> Seq<CommentModel> {
    listed(items, of, items.len() as int)
}

proof fn listed_agrees<A>(
    items: Seq<A>,
    more: Seq<A>,
    of: spec_fn(A) -> Seq<CommentModel>,
    count: int,
)
    requires
        count <= items.len(),
        items.is_prefix_of(more),
    ensures
        listed(more, of, count) == listed(items, of, count),
    decreases count,
{
    if count > 0 {
        listed_agrees(items, more, of, count - 1);
        assert(more[count - 1] == items[count - 1]);
    }
}

proof fn one_more_listed<A>(items: Seq<A>, item: A, of: spec_fn(A) -> Seq<CommentModel>)
    ensures
        listed_of(items.push(item), of) == listed_of(items, of) + of(item),
{
    listed_agrees(items, items.push(item), of, items.len() as int);
}

/// How the comments of one more item add up.
proof fn item_adds<A>(
    items: Seq<A>,
    item: A,
    of: spec_fn(A) -> Seq<CommentModel>,
    rest: Seq<CommentModel>,
)
    ensures
        listed_of(items, of) + (of(item) + rest) == listed_of(items.push(item), of) + rest,
{
    one_more_listed(items, item, of);
    assert(listed_of(items, of) + (of(item) + rest) =~= listed_of(items, of) + of(item) + rest);
}

proof fn nothing_listed<A>(of: spec_fn(A) -> Seq<CommentModel>, rest: Seq<CommentModel>)
    ensures
        listed_of(Seq::<A>::empty(), of) + rest == rest,
{
    assert(listed_of(Seq::<A>::empty(), of) + rest =~= rest);
}

spec fn on_field() -> spec_fn(SchemaFieldModel) -> Seq<CommentModel> {
    |field: SchemaFieldModel| field.comments.all()
}

spec fn on_property() -> spec_fn(PropertyModel) -> Seq<CommentModel> {
    |property: PropertyModel| property.comments.all()
}

spec fn on_evidence_field() -> spec_fn(EvidenceFieldModel) -> Seq<CommentModel> {
    |field: EvidenceFieldModel| field.comments.all()
}

spec fn on_link() -> spec_fn(LinkDeclarationModel) -> Seq<CommentModel> {
    |link: LinkDeclarationModel| link.comments.all()
}

spec fn on_evidence() -> spec_fn(EvidenceBlockModel) -> Seq<CommentModel> {
    |block: EvidenceBlockModel|
        block.comments.all() + listed_of(block.fields, on_evidence_field()) + block.block_comments
}

spec fn on_contribution() -> spec_fn(ContributionBlockModel) -> Seq<CommentModel> {
    |block: ContributionBlockModel|
        block.comments.all() + listed_of(block.evidence, on_evidence()) + block.block_comments
}

proof fn fields_listed(fields: Seq<SchemaFieldModel>, count: int)
    ensures
        field_comments(fields, count) == listed(fields, on_field(), count),
    decreases count,
{
    if count > 0 {
        fields_listed(fields, count - 1);
    }
}

proof fn properties_listed(properties: Seq<PropertyModel>, count: int)
    ensures
        property_comments(properties, count) == listed(properties, on_property(), count),
    decreases count,
{
    if count > 0 {
        properties_listed(properties, count - 1);
    }
}

proof fn evidence_fields_listed(fields: Seq<EvidenceFieldModel>, count: int)
    ensures
        evidence_field_comments(fields, count) == listed(fields, on_evidence_field(), count),
    decreases count,
{
    if count > 0 {
        evidence_fields_listed(fields, count - 1);
    }
}

proof fn links_listed(links: Seq<LinkDeclarationModel>, count: int)
    ensures
        link_comments(links, count) == listed(links, on_link(), count),
    decreases count,
{
    if count > 0 {
        links_listed(links, count - 1);
    }
}

proof fn evidence_listed(blocks: Seq<EvidenceBlockModel>, count: int)
    ensures
        evidence_comments(blocks, count) == listed(blocks, on_evidence(), count),
    decreases count,
{
    if count > 0 {
        evidence_listed(blocks, count - 1);
        let block = blocks[count - 1];
        evidence_fields_listed(block.fields, block.fields.len() as int);
        four_join(
            listed(blocks, on_evidence(), count - 1),
            block.comments.all(),
            listed_of(block.fields, on_evidence_field()),
            block.block_comments,
        );
    }
}

proof fn contributions_listed(blocks: Seq<ContributionBlockModel>, count: int)
    ensures
        contribution_comments(blocks, count) == listed(blocks, on_contribution(), count),
    decreases count,
{
    if count > 0 {
        contributions_listed(blocks, count - 1);
        let block = blocks[count - 1];
        evidence_listed(block.evidence, block.evidence.len() as int);
        four_join(
            listed(blocks, on_contribution(), count - 1),
            block.comments.all(),
            listed_of(block.evidence, on_evidence()),
            block.block_comments,
        );
    }
}

/// How four lists of comments join.
proof fn four_join(
    first: Seq<CommentModel>,
    second: Seq<CommentModel>,
    third: Seq<CommentModel>,
    fourth: Seq<CommentModel>,
)
    ensures
        first + (second + third + fourth) == first + second + third + fourth,
        first + (second + (third + fourth)) == first + second + third + fourth,
{
    assert(first + (second + third + fourth) =~= first + second + third + fourth);
    assert(first + (second + (third + fourth)) =~= first + second + third + fourth);
}

// -- What the parser does with comments --------------------------------------------

proof fn skip_is_kept(tokens: Seq<TokenModel>, cursor: Cursor)
    ensures
        owed(tokens, skip(tokens, cursor)) == owed(tokens, cursor),
    decreases tokens.len() - cursor.index,
{
    if 0 <= cursor.index < tokens.len() {
        if kind(tokens, cursor) == TokenKind::Trivia(TriviaKind::Whitespace) {
            skip_is_kept(tokens, step(cursor));
        } else if is_comment(here(tokens, cursor)) {
            let comment = comment_of(here(tokens, cursor));
            let more = cursor.pending.push(comment);
            skip_is_kept(tokens, Cursor { index: cursor.index + 1, pending: more });
            assert(more + heard_from(tokens, cursor.index + 1) =~= owed(tokens, cursor));
        }
    }
}

proof fn taken_is_kept(tokens: Seq<TokenModel>, cursor: Cursor)
    ensures
        owed(tokens, cursor) == cursor.pending + owed(tokens, taken(cursor)),
        owed(tokens, taken(cursor)) == heard_from(tokens, cursor.index),
{
    assert(owed(tokens, taken(cursor)) =~= heard_from(tokens, cursor.index));
}

proof fn trailing_at_is_kept(tokens: Seq<TokenModel>, index: int)
    ensures
        trailing_at(tokens, index) matches Some((comment, next)) ==> {
            &&& heard_from(tokens, index) == seq![comment] + heard_from(tokens, next)
        },
    decreases tokens.len() - index,
{
    if 0 <= index < tokens.len() {
        if tokens[index].kind == TokenKind::Trivia(TriviaKind::Whitespace) {
            trailing_at_is_kept(tokens, index + 1);
        }
    }
}

/// The comments that a part gets are those that were owed, in order.
proof fn remarks_are_kept(tokens: Seq<TokenModel>, cursor: Cursor, leading: Seq<CommentModel>)
    ensures
        ({
            let (found, next) = remarked(tokens, cursor, leading);
            leading + owed(tokens, cursor) == found.all() + owed(tokens, next)
        }),
{
    trailing_at_is_kept(tokens, cursor.index);
    let (found, next) = remarked(tokens, cursor, leading);
    taken_is_kept(tokens, cursor);
    assert(owed(tokens, taken(cursor)) =~= optional_comment(found.trailing) + owed(tokens, next));
    assert(leading + owed(tokens, cursor) =~= found.all() + owed(tokens, next));
}

/// A block ends with the comments that were owed in front of its brace and the one behind it
/// on its line.
proof fn closing_is_kept(
    tokens: Seq<TokenModel>,
    cursor: Cursor,
    what: Seq<char>,
    comments: CommentsModel,
    hollow: bool,
    inside: Seq<CommentModel>,
)
    requires
        skip(tokens, cursor) == cursor,
        hollow ==> inside.len() == 0,
    ensures
        expected(tokens, taken(cursor), TokenKind::RightBrace, what) matches Ok((_, next)) ==> {
            let (found, left, last) = closed(tokens, next, comments, hollow, cursor.pending);
            comments.all() + (inside + owed(tokens, cursor)) == found.all() + inside + left + owed(
                tokens,
                last,
            )
        },
{
    taken_is_kept(tokens, cursor);
    skip_by_index(tokens, cursor, taken(cursor));
    skip_is_kept(tokens, taken(cursor));
    expected_is_kept(tokens, taken(cursor), TokenKind::RightBrace, what);
    let at = skip(tokens, taken(cursor));
    assert(at.pending =~= Seq::empty()) by {
        assert(owed(tokens, at).len() == at.pending.len() + heard_from(tokens, at.index).len());
        assert(owed(tokens, taken(cursor)).len() == heard_from(tokens, cursor.index).len());
    }
    if let Ok((_, next)) = expected(tokens, taken(cursor), TokenKind::RightBrace, what) {
        trailing_at_is_kept(tokens, next.index);
        let (comment, last) = trailing(tokens, next);
        let ending = optional_comment(comment);
        assert(owed(tokens, cursor) =~= cursor.pending + ending + owed(tokens, last));
        let (found, left, _) = closed(tokens, next, comments, hollow, cursor.pending);
        assert(comments.all() + (inside + (cursor.pending + ending + owed(tokens, last)))
            =~= found.all() + inside + left + owed(tokens, last));
    }
}

proof fn expected_is_kept(
    tokens: Seq<TokenModel>,
    cursor: Cursor,
    wanted: TokenKind,
    what: Seq<char>,
)
    requires
        !(wanted is Trivia),
    ensures
        expected(tokens, cursor, wanted, what) matches Ok((_, next)) ==> {
            &&& owed(tokens, next) == owed(tokens, cursor)
            &&& cursor.index < next.index
        },
{
    skip_moves(tokens, cursor);
    skip_is_kept(tokens, cursor);
}

proof fn identifier_is_kept(tokens: Seq<TokenModel>, cursor: Cursor, what: Seq<char>)
    ensures
        identifier(tokens, cursor, what) matches Ok((_, next)) ==> {
            &&& owed(tokens, next) == owed(tokens, cursor)
        },
{
    skip_is_kept(tokens, cursor);
}

proof fn quoted_is_kept(tokens: Seq<TokenModel>, cursor: Cursor, what: Seq<char>)
    ensures
        quoted(tokens, cursor, what) matches Ok((_, next)) ==> {
            &&& owed(tokens, next) == owed(tokens, cursor)
        },
{
    expected_is_kept(tokens, cursor, TokenKind::StringLiteral, what);
}

proof fn entry_is_kept(tokens: Seq<TokenModel>, cursor: Cursor, leading: Seq<CommentModel>)
    ensures
        ({
            let (separated, found, next) = entry_end(tokens, cursor, leading);
            &&& leading + owed(tokens, cursor) == found.all() + owed(tokens, next)
            &&& !separated ==> skip(tokens, next) == next
        }),
{
    remarks_are_kept(tokens, cursor, leading);
    let (first, behind_it) = remarked(tokens, cursor, leading);
    skip_is_kept(tokens, behind_it);
    skip_twice(tokens, behind_it);
    let (separated, next) = eaten(tokens, behind_it, TokenKind::Comma);
    remarks_are_kept(tokens, next, first.leading);
    if first.trailing is None {
        assert(first.all() =~= first.leading);
    }
}

proof fn endpoint_is_kept(tokens: Seq<TokenModel>, cursor: Cursor)
    ensures
        endpoint(tokens, cursor) matches Ok((_, next)) ==> {
            &&& owed(tokens, next) == owed(tokens, cursor)
        },
{
    skip_is_kept(tokens, cursor);
    let at = skip(tokens, cursor);
    quoted_is_kept(tokens, at, "a locator"@);
    if let Ok((_, second)) = quoted(tokens, at, "a locator"@) {
        expected_is_kept(tokens, second, TokenKind::ColonColon, "`::` after a locator"@);
        if let Ok((_, third)) = expected(
            tokens,
            second,
            TokenKind::ColonColon,
            "`::` after a locator"@,
        ) {
            identifier_is_kept(tokens, third, "a declaration name"@);
        }
    }
    identifier_is_kept(tokens, at, "an endpoint"@);
    if let Ok((_, next)) = identifier(tokens, at, "an endpoint"@) {
        skip_is_kept(tokens, next);
        identifier_is_kept(tokens, step(skip(tokens, next)), "a declaration name"@);
    }
}

proof fn scalar_is_kept(tokens: Seq<TokenModel>, cursor: Cursor)
    ensures
        scalar(tokens, cursor) matches Ok((_, next)) ==> owed(tokens, next) == owed(tokens, cursor),
{
    skip_is_kept(tokens, cursor);
}

proof fn scalars_are_kept(
    tokens: Seq<TokenModel>,
    cursor: Cursor,
    before: Seq<Spanned<ValueModel>>,
)
    ensures
        scalars(tokens, cursor, before) matches Ok((_, next)) ==> {
            &&& owed(tokens, next) == owed(tokens, cursor)
        },
    decreases tokens.len() - cursor.index,
{
    scalar_moves(tokens, cursor);
    scalar_is_kept(tokens, cursor);
    if let Ok((item, next)) = scalar(tokens, cursor) {
        skip_is_kept(tokens, next);
        skip_moves(tokens, next);
        let comma = skip(tokens, next);
        if kind(tokens, comma) == TokenKind::Comma {
            skip_is_kept(tokens, step(comma));
            skip_moves(tokens, step(comma));
            scalars_are_kept(tokens, skip(tokens, step(comma)), before.push(item));
        }
    }
}

proof fn value_is_kept(tokens: Seq<TokenModel>, cursor: Cursor)
    ensures
        value(tokens, cursor) matches Ok((_, next)) ==> owed(tokens, next) == owed(tokens, cursor),
{
    skip_is_kept(tokens, cursor);
    let at = skip(tokens, cursor);
    if kind(tokens, at) != TokenKind::LeftBracket {
        scalar_is_kept(tokens, at);
    } else {
        skip_is_kept(tokens, step(at));
        let first = skip(tokens, step(at));
        let none = Seq::<Spanned<ValueModel>>::empty();
        scalars_are_kept(tokens, first, none);
        expected_is_kept(tokens, first, TokenKind::RightBracket, "`]`"@);
        if let Ok((items, next)) = scalars(tokens, first, none) {
            expected_is_kept(tokens, next, TokenKind::RightBracket, "`]`"@);
        }
    }
}

proof fn property_is_kept(tokens: Seq<TokenModel>, cursor: Cursor)
    ensures
        property(tokens, cursor) matches Ok(((found, separated), next)) ==> {
            &&& owed(tokens, cursor) == on_property()(found) + owed(tokens, next)
            &&& !separated ==> skip(tokens, next) == next
        },
{
    taken_is_kept(tokens, cursor);
    identifier_is_kept(tokens, taken(cursor), "a property key"@);
    if let Ok((_, second)) = identifier(tokens, taken(cursor), "a property key"@) {
        expected_is_kept(tokens, second, TokenKind::Colon, "`:` after a property key"@);
        if let Ok((_, third)) = expected(
            tokens,
            second,
            TokenKind::Colon,
            "`:` after a property key"@,
        ) {
            value_is_kept(tokens, third);
            if let Ok((_, fourth)) = value(tokens, third) {
                entry_is_kept(tokens, fourth, cursor.pending);
            }
        }
    }
}

proof fn properties_are_kept(
    tokens: Seq<TokenModel>,
    cursor: Cursor,
    before: Seq<PropertyModel>,
)
    ensures
        properties(tokens, cursor, before) matches Ok((found, next)) ==> {
            &&& listed_of(before, on_property()) + owed(tokens, cursor) == listed_of(found, on_property())
                + owed(tokens, next)
            &&& skip(tokens, next) == next
        },
    decreases tokens.len() - cursor.index,
{
    let at = skip(tokens, cursor);
    skip_is_kept(tokens, cursor);
    skip_twice(tokens, cursor);
    if names(kind(tokens, at)) {
        skip_moves(tokens, cursor);
        property_moves(tokens, at);
        property_is_kept(tokens, at);
        if let Ok(((found, separated), next)) = property(tokens, at) {
            item_adds(before, found, on_property(), owed(tokens, next));
            if separated {
                properties_are_kept(tokens, next, before.push(found));
            }
        }
    }
}

proof fn evidence_value_is_kept(tokens: Seq<TokenModel>, cursor: Cursor)
    ensures
        evidence_value(tokens, cursor) matches Ok((_, next)) ==> {
            &&& owed(tokens, next) == owed(tokens, cursor)
        },
{
    skip_is_kept(tokens, cursor);
    let at = skip(tokens, cursor);
    quoted_is_kept(tokens, at, "a quoted value"@);
    identifier_is_kept(tokens, at, "a quoted value or a bare word"@);
    if let Ok((_, next)) = identifier(tokens, at, "a quoted value or a bare word"@) {
        skip_is_kept(tokens, next);
        let open = skip(tokens, next);
        skip_is_kept(tokens, step(open));
        let number = skip(tokens, step(open));
        expected_is_kept(tokens, step(number), TokenKind::RightParen, "`)` after a score"@);
    }
}

proof fn evidence_field_is_kept(tokens: Seq<TokenModel>, cursor: Cursor)
    ensures
        evidence_field(tokens, cursor) matches Ok(((found, separated), next)) ==> {
            &&& owed(tokens, cursor) == on_evidence_field()(found) + owed(tokens, next)
            &&& !separated ==> skip(tokens, next) == next
        },
{
    taken_is_kept(tokens, cursor);
    identifier_is_kept(tokens, taken(cursor), "an evidence key"@);
    if let Ok((_, second)) = identifier(tokens, taken(cursor), "an evidence key"@) {
        expected_is_kept(tokens, second, TokenKind::Colon, "`:` after an evidence key"@);
        if let Ok((_, third)) = expected(
            tokens,
            second,
            TokenKind::Colon,
            "`:` after an evidence key"@,
        ) {
            evidence_value_is_kept(tokens, third);
            if let Ok((_, fourth)) = evidence_value(tokens, third) {
                entry_is_kept(tokens, fourth, cursor.pending);
            }
        }
    }
}

proof fn evidence_fields_are_kept(
    tokens: Seq<TokenModel>,
    cursor: Cursor,
    before: Seq<EvidenceFieldModel>,
)
    ensures
        evidence_fields(tokens, cursor, before) matches Ok((found, next)) ==> {
            &&& listed_of(before, on_evidence_field()) + owed(tokens, cursor) == listed_of(found, on_evidence_field())
                + owed(tokens, next)
            &&& skip(tokens, next) == next
        },
    decreases tokens.len() - cursor.index,
{
    let at = skip(tokens, cursor);
    skip_is_kept(tokens, cursor);
    skip_twice(tokens, cursor);
    if names(kind(tokens, at)) {
        skip_moves(tokens, cursor);
        evidence_field_moves(tokens, at);
        evidence_field_is_kept(tokens, at);
        if let Ok(((found, separated), next)) = evidence_field(tokens, at) {
            item_adds(before, found, on_evidence_field(), owed(tokens, next));
            if separated {
                evidence_fields_are_kept(tokens, next, before.push(found));
            }
        }
    }
}

proof fn evidence_is_kept(tokens: Seq<TokenModel>, cursor: Cursor)
    ensures
        evidence(tokens, cursor) matches Ok((found, next)) ==> {
            &&& owed(tokens, cursor) == on_evidence()(found) + owed(tokens, next)
        },
{
    taken_is_kept(tokens, cursor);
    let none = Seq::<EvidenceFieldModel>::empty();
    expected_is_kept(tokens, taken(cursor), TokenKind::EvidenceDirective, "`@evidence`"@);
    if let Ok((_, second)) = expected(
        tokens,
        taken(cursor),
        TokenKind::EvidenceDirective,
        "`@evidence`"@,
    ) {
        expected_is_kept(tokens, second, TokenKind::LeftBrace, "`{` to open an evidence block"@);
        if let Ok((_, third)) = expected(
            tokens,
            second,
            TokenKind::LeftBrace,
            "`{` to open an evidence block"@,
        ) {
            remarks_are_kept(tokens, third, cursor.pending);
            let (comments, fourth) = remarked(tokens, third, cursor.pending);
            evidence_fields_are_kept(tokens, fourth, none);
            if let Ok((fields, fifth)) = evidence_fields(tokens, fourth, none) {
                let end = "`}` to close an evidence block"@;
                nothing_listed(on_evidence_field(), owed(tokens, fourth));
                let inside = listed_of(fields, on_evidence_field());
                closing_is_kept(tokens, fifth, end, comments, fields.len() == 0, inside);
            }
        }
    }
}

proof fn evidence_blocks_are_kept(
    tokens: Seq<TokenModel>,
    cursor: Cursor,
    before: Seq<EvidenceBlockModel>,
)
    ensures
        evidence_blocks(tokens, cursor, before) matches Ok((found, next)) ==> {
            &&& listed_of(before, on_evidence()) + owed(tokens, cursor) == listed_of(found, on_evidence())
                + owed(tokens, next)
            &&& skip(tokens, next) == next
        },
    decreases tokens.len() - cursor.index,
{
    let at = skip(tokens, cursor);
    skip_is_kept(tokens, cursor);
    skip_twice(tokens, cursor);
    if kind(tokens, at) == TokenKind::EvidenceDirective {
        skip_moves(tokens, cursor);
        evidence_moves(tokens, at);
        evidence_is_kept(tokens, at);
        if let Ok((found, next)) = evidence(tokens, at) {
            item_adds(before, found, on_evidence(), owed(tokens, next));
            evidence_blocks_are_kept(tokens, next, before.push(found));
        }
    }
}

proof fn owner_is_kept(tokens: Seq<TokenModel>, cursor: Cursor)
    ensures
        owner(tokens, cursor) matches Ok((_, next)) ==> owed(tokens, next) == owed(tokens, cursor),
{
    skip_is_kept(tokens, cursor);
    let at = skip(tokens, cursor);
    quoted_is_kept(tokens, step(at), "a quoted analyzer name"@);
    if let Ok((_, next)) = quoted(tokens, step(at), "a quoted analyzer name"@) {
        quoted_is_kept(tokens, next, "a quoted analyzer version"@);
    }
    quoted_is_kept(tokens, step(at), "a quoted analysis contract digest"@);
}

proof fn unit_is_kept(tokens: Seq<TokenModel>, cursor: Cursor)
    ensures
        unit(tokens, cursor) matches Ok((_, next)) ==> owed(tokens, next) == owed(tokens, cursor),
{
    skip_is_kept(tokens, cursor);
    quoted_is_kept(tokens, step(skip(tokens, cursor)), "a quoted source unit identifier"@);
}

proof fn contribution_is_kept(tokens: Seq<TokenModel>, cursor: Cursor)
    ensures
        contribution(tokens, cursor) matches Ok((found, next)) ==> {
            &&& owed(tokens, cursor) == on_contribution()(found) + owed(tokens, next)
        },
{
    taken_is_kept(tokens, cursor);
    let none = Seq::<EvidenceBlockModel>::empty();
    let what = "`{` to open a contribution block"@;
    expected_is_kept(tokens, taken(cursor), TokenKind::ByDirective, "`@by`"@);
    if let Ok((_, second)) = expected(tokens, taken(cursor), TokenKind::ByDirective, "`@by`"@) {
        owner_is_kept(tokens, second);
        if let Ok((_, third)) = owner(tokens, second) {
            unit_is_kept(tokens, third);
            if let Ok((_, fourth)) = unit(tokens, third) {
                expected_is_kept(tokens, fourth, TokenKind::LeftBrace, what);
                if let Ok((_, fifth)) = expected(tokens, fourth, TokenKind::LeftBrace, what) {
                    remarks_are_kept(tokens, fifth, cursor.pending);
                    let (comments, sixth) = remarked(tokens, fifth, cursor.pending);
                    evidence_blocks_are_kept(tokens, sixth, none);
                    if let Ok((blocks, seventh)) = evidence_blocks(tokens, sixth, none) {
                        let end = "`}` to close a contribution block"@;
                        nothing_listed(on_evidence(), owed(tokens, sixth));
                        let inside = listed_of(blocks, on_evidence());
                        closing_is_kept(tokens, seventh, end, comments, blocks.len() == 0, inside);
                    }
                }
            }
        }
    }
}

proof fn contributions_are_kept(
    tokens: Seq<TokenModel>,
    cursor: Cursor,
    before: Seq<ContributionBlockModel>,
)
    ensures
        contributions(tokens, cursor, before) matches Ok((found, next)) ==> {
            &&& listed_of(before, on_contribution()) + owed(tokens, cursor) == listed_of(found, on_contribution())
                + owed(tokens, next)
            &&& skip(tokens, next) == next
        },
    decreases tokens.len() - cursor.index,
{
    let at = skip(tokens, cursor);
    skip_is_kept(tokens, cursor);
    skip_twice(tokens, cursor);
    if kind(tokens, at) == TokenKind::ByDirective {
        skip_moves(tokens, cursor);
        contribution_moves(tokens, at);
        contribution_is_kept(tokens, at);
        if let Ok((found, next)) = contribution(tokens, at) {
            item_adds(before, found, on_contribution(), owed(tokens, next));
            contributions_are_kept(tokens, next, before.push(found));
        }
    }
}

proof fn record_is_kept(tokens: Seq<TokenModel>, cursor: Cursor, leading: Seq<CommentModel>)
    ensures
        record_body(tokens, cursor, leading) matches Ok((found, next)) ==> {
            &&& leading + owed(tokens, cursor) == record_comments(found) + owed(tokens, next)
        },
{
    let none = Seq::<PropertyModel>::empty();
    let nothing = Seq::<ContributionBlockModel>::empty();
    let what = "`{` to open a record block"@;
    let end = "`}` to close a record block"@;
    expected_is_kept(tokens, cursor, TokenKind::LeftBrace, what);
    if let Ok((_, second)) = expected(tokens, cursor, TokenKind::LeftBrace, what) {
        remarks_are_kept(tokens, second, leading);
        let (comments, third) = remarked(tokens, second, leading);
        properties_are_kept(tokens, third, none);
        if let Ok((first, fourth)) = properties(tokens, third, none) {
            nothing_listed(on_property(), owed(tokens, third));
            properties_listed(first, first.len() as int);
            contributions_are_kept(tokens, fourth, nothing);
            if let Ok((blocks, fifth)) = contributions(tokens, fourth, nothing) {
                nothing_listed(on_contribution(), owed(tokens, fourth));
                contributions_listed(blocks, blocks.len() as int);
                let a = listed_of(first, on_property());
                let b = listed_of(blocks, on_contribution());
                let hollow = first.len() == 0 && blocks.len() == 0;
                closing_is_kept(tokens, fifth, end, comments, hollow, a + b);
                assert(a + (b + owed(tokens, fifth)) =~= a + b + owed(tokens, fifth));
                if let Ok((_, behind)) = expected(tokens, taken(fifth), TokenKind::RightBrace, end) {
                    let (found, left, last) = closed(
                        tokens,
                        behind,
                        comments,
                        hollow,
                        fifth.pending,
                    );
                    assert(found.all() + (a + b) + left =~= found.all() + a + b + left);
                }
            }
        }
    }
}

proof fn type_is_kept(tokens: Seq<TokenModel>, cursor: Cursor)
    ensures
        field_type(tokens, cursor) matches Ok((_, next)) ==> {
            &&& owed(tokens, next) == owed(tokens, cursor)
        },
{
    skip_is_kept(tokens, cursor);
    let at = skip(tokens, cursor);
    let second = step(at);
    let what = "`]` to close an array type"@;
    if type_word(here(tokens, at)) is Some {
        assert(!is_comment(here(tokens, at)));
        assert(owed(tokens, second) == owed(tokens, at));
        if kind(tokens, second) == TokenKind::LeftBracket {
            assert(owed(tokens, step(second)) == owed(tokens, second));
        }
    }
    expected_is_kept(tokens, step(second), TokenKind::RightBracket, what);
    if let Ok((_, next)) = expected(tokens, step(second), TokenKind::RightBracket, what) {
        skip_is_kept(tokens, next);
    }
}

proof fn field_is_kept(tokens: Seq<TokenModel>, cursor: Cursor)
    ensures
        schema_field(tokens, cursor) matches Ok(((found, separated), next)) ==> {
            &&& owed(tokens, cursor) == on_field()(found) + owed(tokens, next)
            &&& !separated ==> skip(tokens, next) == next
        },
{
    taken_is_kept(tokens, cursor);
    identifier_is_kept(tokens, taken(cursor), "a field key"@);
    if let Ok((_, second)) = identifier(tokens, taken(cursor), "a field key"@) {
        skip_is_kept(tokens, second);
        let (_, third) = eaten(tokens, second, TokenKind::Question);
        expected_is_kept(tokens, third, TokenKind::Colon, "`:` after a field key"@);
        if let Ok((_, fourth)) = expected(
            tokens,
            third,
            TokenKind::Colon,
            "`:` after a field key"@,
        ) {
            type_is_kept(tokens, fourth);
            if let Ok((_, fifth)) = field_type(tokens, fourth) {
                entry_is_kept(tokens, fifth, cursor.pending);
            }
        }
    }
}

proof fn fields_are_kept(tokens: Seq<TokenModel>, cursor: Cursor, before: Seq<SchemaFieldModel>)
    ensures
        schema_fields(tokens, cursor, before) matches Ok((found, next)) ==> {
            &&& listed_of(before, on_field()) + owed(tokens, cursor) == listed_of(found, on_field())
                + owed(tokens, next)
            &&& skip(tokens, next) == next
        },
    decreases tokens.len() - cursor.index,
{
    let at = skip(tokens, cursor);
    skip_is_kept(tokens, cursor);
    skip_twice(tokens, cursor);
    if names(kind(tokens, at)) {
        skip_moves(tokens, cursor);
        schema_field_moves(tokens, at);
        field_is_kept(tokens, at);
        if let Ok(((found, separated), next)) = schema_field(tokens, at) {
            item_adds(before, found, on_field(), owed(tokens, next));
            if separated {
                fields_are_kept(tokens, next, before.push(found));
            }
        }
    }
}

proof fn constraint_is_kept(tokens: Seq<TokenModel>, cursor: Cursor)
    ensures
        constraint(tokens, cursor) matches Ok((_, next)) ==> {
            &&& owed(tokens, next) == owed(tokens, cursor)
        },
{
    skip_is_kept(tokens, cursor);
    let at = skip(tokens, cursor);
    identifier_is_kept(tokens, step(at), "the source schema name"@);
    if let Ok((_, second)) = identifier(tokens, step(at), "the source schema name"@) {
        let what = "`->` between the endpoint schemas"@;
        expected_is_kept(tokens, second, TokenKind::Arrow, what);
        if let Ok((_, third)) = expected(tokens, second, TokenKind::Arrow, what) {
            identifier_is_kept(tokens, third, "the target schema name"@);
            if let Ok((_, fourth)) = identifier(tokens, third, "the target schema name"@) {
                expected_is_kept(
                    tokens,
                    fourth,
                    TokenKind::RightParen,
                    "`)` after the endpoint schemas"@,
                );
            }
        }
    }
}

proof fn schema_is_kept(tokens: Seq<TokenModel>, cursor: Cursor)
    ensures
        schema(tokens, cursor) matches Ok((found, next)) ==> {
            &&& owed(tokens, cursor) == schema_comments(found) + owed(tokens, next)
        },
{
    taken_is_kept(tokens, cursor);
    let none = Seq::<SchemaFieldModel>::empty();
    let what = "`{` to open a field block"@;
    let word = TokenKind::Keyword(Keyword::Schema);
    expected_is_kept(tokens, taken(cursor), word, "`schema`"@);
    if let Ok((_, second)) = expected(tokens, taken(cursor), word, "`schema`"@) {
        identifier_is_kept(tokens, second, "a schema name"@);
        if let Ok((_, third)) = identifier(tokens, second, "a schema name"@) {
            constraint_is_kept(tokens, third);
            if let Ok((_, fourth)) = constraint(tokens, third) {
                expected_is_kept(tokens, fourth, TokenKind::LeftBrace, what);
                if let Ok((_, fifth)) = expected(tokens, fourth, TokenKind::LeftBrace, what) {
                    remarks_are_kept(tokens, fifth, cursor.pending);
                    let (comments, sixth) = remarked(tokens, fifth, cursor.pending);
                    fields_are_kept(tokens, sixth, none);
                    if let Ok((fields, seventh)) = schema_fields(tokens, sixth, none) {
                        let end = "`}` to close a field block"@;
                        nothing_listed(on_field(), owed(tokens, sixth));
                        fields_listed(fields, fields.len() as int);
                        let inside = listed_of(fields, on_field());
                        closing_is_kept(tokens, seventh, end, comments, fields.len() == 0, inside);
                    }
                }
            }
        }
    }
}

proof fn more_schemas_are_kept(
    tokens: Seq<TokenModel>,
    cursor: Cursor,
    before: Seq<Spanned<Seq<char>>>,
)
    ensures
        more_schemas(tokens, cursor, before) matches Ok((_, next)) ==> {
            &&& owed(tokens, next) == owed(tokens, cursor)
        },
    decreases tokens.len() - cursor.index,
{
    skip_is_kept(tokens, cursor);
    let (separated, next) = eaten(tokens, cursor, TokenKind::Comma);
    if separated {
        skip_moves(tokens, cursor);
        identifier_moves(tokens, next, "a schema name"@);
        identifier_is_kept(tokens, next, "a schema name"@);
        if let Ok((name, last)) = identifier(tokens, next, "a schema name"@) {
            more_schemas_are_kept(tokens, last, before.push(name));
        }
    }
}

proof fn node_is_kept(tokens: Seq<TokenModel>, cursor: Cursor)
    ensures
        node(tokens, cursor) matches Ok((found, next)) ==> {
            &&& owed(tokens, cursor) == record_comments(found.record) + owed(tokens, next)
        },
{
    taken_is_kept(tokens, cursor);
    let word = TokenKind::Keyword(Keyword::Node);
    let what = "`:` before the schema names"@;
    expected_is_kept(tokens, taken(cursor), word, "`node`"@);
    if let Ok((_, second)) = expected(tokens, taken(cursor), word, "`node`"@) {
        identifier_is_kept(tokens, second, "a node name"@);
        if let Ok((_, third)) = identifier(tokens, second, "a node name"@) {
            expected_is_kept(tokens, third, TokenKind::Colon, what);
            if let Ok((_, fourth)) = expected(tokens, third, TokenKind::Colon, what) {
                identifier_is_kept(tokens, fourth, "a schema name"@);
                if let Ok((first, fifth)) = identifier(tokens, fourth, "a schema name"@) {
                    more_schemas_are_kept(tokens, fifth, seq![first]);
                    if let Ok((_, sixth)) = more_schemas(tokens, fifth, seq![first]) {
                        record_is_kept(tokens, sixth, cursor.pending);
                    }
                }
            }
        }
    }
}

proof fn edge_is_kept(tokens: Seq<TokenModel>, cursor: Cursor)
    ensures
        edge(tokens, cursor) matches Ok((found, next)) ==> {
            &&& owed(tokens, cursor) == record_comments(found.record) + owed(tokens, next)
        },
{
    taken_is_kept(tokens, cursor);
    let word = TokenKind::Keyword(Keyword::Edge);
    let between = "`->` between the endpoints"@;
    let before = "`:` before a relation name"@;
    expected_is_kept(tokens, taken(cursor), word, "`edge`"@);
    if let Ok((_, second)) = expected(tokens, taken(cursor), word, "`edge`"@) {
        endpoint_is_kept(tokens, second);
        if let Ok((_, third)) = endpoint(tokens, second) {
            expected_is_kept(tokens, third, TokenKind::Arrow, between);
            if let Ok((_, fourth)) = expected(tokens, third, TokenKind::Arrow, between) {
                endpoint_is_kept(tokens, fourth);
                if let Ok((_, fifth)) = endpoint(tokens, fourth) {
                    expected_is_kept(tokens, fifth, TokenKind::Colon, before);
                    if let Ok((_, sixth)) = expected(tokens, fifth, TokenKind::Colon, before) {
                        identifier_is_kept(tokens, sixth, "a relation name"@);
                        if let Ok((_, seventh)) = identifier(tokens, sixth, "a relation name"@) {
                            record_is_kept(tokens, seventh, cursor.pending);
                        }
                    }
                }
            }
        }
    }
}

proof fn link_is_kept(tokens: Seq<TokenModel>, cursor: Cursor)
    requires
        kind(tokens, cursor) == TokenKind::LinkDirective,
    ensures
        link(tokens, cursor) matches Ok((found, next)) ==> {
            &&& owed(tokens, cursor) == on_link()(found) + owed(tokens, next)
        },
{
    taken_is_kept(tokens, cursor);
    let start = step(taken(cursor));
    quoted_is_kept(tokens, start, "a quoted link locator"@);
    if let Ok((_, second)) = quoted(tokens, start, "a quoted link locator"@) {
        skip_is_kept(tokens, second);
        let third = skip(tokens, second);
        identifier_is_kept(tokens, step(third), "a link alias"@);
        if kind(tokens, third) == TokenKind::Keyword(Keyword::As) {
            if let Ok((_, fourth)) = identifier(tokens, step(third), "a link alias"@) {
                remarks_are_kept(tokens, fourth, cursor.pending);
            }
        } else {
            remarks_are_kept(tokens, second, cursor.pending);
        }
    }
}

proof fn links_are_kept(
    tokens: Seq<TokenModel>,
    cursor: Cursor,
    before: Seq<LinkDeclarationModel>,
)
    ensures
        links(tokens, cursor, before) matches Ok((found, next)) ==> {
            &&& listed_of(before, on_link()) + owed(tokens, cursor) == listed_of(found, on_link())
                + owed(tokens, next)
            &&& (0 <= cursor.index ==> 0 <= next.index)
        },
    decreases tokens.len() - cursor.index,
{
    let at = skip(tokens, cursor);
    skip_moves(tokens, cursor);
    skip_is_kept(tokens, cursor);
    if kind(tokens, at) == TokenKind::LinkDirective {
        skip_moves(tokens, cursor);
        link_moves(tokens, at);
        link_is_kept(tokens, at);
        if let Ok((found, next)) = link(tokens, at) {
            item_adds(before, found, on_link(), owed(tokens, next));
            links_are_kept(tokens, next, before.push(found));
        }
    }
}

/// The comments of the first `count` declarations in source order.
spec fn declared(all: Declarations, count: int) -> Seq<CommentModel>
    decreases count,
{
    if count <= 0 {
        Seq::empty()
    } else {
        declared(all, count - 1) + (match all.order[count - 1] {
            DeclarationRef::Schema(index) => schema_comments(all.schemas[index as int]),
            DeclarationRef::Node(index) => record_comments(all.nodes[index as int].record),
            DeclarationRef::Edge(index) => record_comments(all.edges[index as int].record),
        })
    }
}

/// The comments of declarations in source order.
spec fn declared_of(all: Declarations) -> Seq<CommentModel> {
    declared(all, all.order.len() as int)
}

/// Whether every reference of the source order points at a declaration.
spec fn order_points_within(all: Declarations) -> bool {
    forall|i: int| 0 <= i < all.order.len() ==> points_within(all, #[trigger] all.order[i])
}

/// Whether the declarations can be counted.
spec fn countable_declarations(all: Declarations) -> bool {
    all.schemas.len() <= usize::MAX && all.nodes.len() <= usize::MAX && all.edges.len()
        <= usize::MAX
}

proof fn declared_agrees(before: Declarations, after: Declarations, count: int)
    requires
        count <= before.order.len(),
        grown(before, after),
        order_points_within(before),
    ensures
        declared(after, count) == declared(before, count),
    decreases count,
{
    if count > 0 {
        declared_agrees(before, after, count - 1);
        assert(points_within(before, before.order[count - 1]));
        assert(after.order[count - 1] == before.order[count - 1]);
    }
}

/// One more declaration adds its comments behind those before it.
proof fn one_more_declaration(tokens: Seq<TokenModel>, at: Cursor, before: Declarations)
    requires
        order_points_within(before),
        countable_declarations(before),
    ensures
        with_next(tokens, at, before) matches Some((after, next)) ==> {
            &&& order_points_within(after)
            &&& declared_of(before) + owed(tokens, at) == declared_of(after) + owed(tokens, next)
        },
{
    schema_is_kept(tokens, at);
    node_is_kept(tokens, at);
    edge_is_kept(tokens, at);
    if let Some((after, next)) = with_next(tokens, at, before) {
        assert(grown(before, after));
        declared_agrees(before, after, before.order.len() as int);
        assert forall|i: int| 0 <= i < after.order.len() implies points_within(
            after,
            #[trigger] after.order[i],
        ) by {
            if i < before.order.len() {
                assert(points_within(before, before.order[i]));
                assert(after.order[i] == before.order[i]);
            }
        }
        let added = match after.order.last() {
            DeclarationRef::Schema(index) => schema_comments(after.schemas[index as int]),
            DeclarationRef::Node(index) => record_comments(after.nodes[index as int].record),
            DeclarationRef::Edge(index) => record_comments(after.edges[index as int].record),
        };
        assert(declared_of(after) == declared_of(before) + added);
        assert(owed(tokens, at) == added + owed(tokens, next));
        assert(declared_of(before) + (added + owed(tokens, next)) =~= declared_of(before) + added
            + owed(tokens, next));
    }
}

proof fn declarations_are_kept(tokens: Seq<TokenModel>, cursor: Cursor, before: Declarations)
    requires
        countable_declarations(before) ==> order_points_within(before),
    ensures
        declarations(tokens, cursor, before) matches Ok((found, next)) ==> {
            &&& before.schemas.len() <= found.schemas.len()
            &&& before.nodes.len() <= found.nodes.len()
            &&& before.edges.len() <= found.edges.len()
            &&& countable_declarations(found) ==> declared_of(before) + owed(tokens, cursor)
                == declared_of(found) + owed(tokens, next) && order_points_within(found)
            &&& (0 <= cursor.index ==> 0 <= next.index)
        },
    decreases tokens.len() - cursor.index,
{
    let at = skip(tokens, cursor);
    skip_is_kept(tokens, cursor);
    skip_moves(tokens, cursor);
    schema_moves(tokens, at);
    node_moves(tokens, at);
    edge_moves(tokens, at);
    if let Some((more, next)) = with_next(tokens, at, before) {
        if countable_declarations(before) {
            one_more_declaration(tokens, at, before);
        }
        declarations_are_kept(tokens, next, more);
    }
}

proof fn header_is_kept(tokens: Seq<TokenModel>)
    ensures
        header(tokens) matches Ok(((_, comments), next)) ==> {
            &&& heard(tokens) == comments.all() + owed(tokens, next)
            &&& 0 <= next.index
        },
{
    let start = Cursor { index: 0, pending: Seq::<CommentModel>::empty() };
    skip_moves(tokens, start);
    skip_is_kept(tokens, start);
    let first = skip(tokens, start);
    let what = "`@nost` as the first declaration"@;
    let number = "a language version number"@;
    taken_is_kept(tokens, first);
    taken_is_kept(tokens, start);
    expected_is_kept(tokens, taken(first), TokenKind::NostDirective, what);
    if let Ok((_, second)) = expected(tokens, taken(first), TokenKind::NostDirective, what) {
        expected_is_kept(tokens, second, TokenKind::IntegerLiteral, number);
        if let Ok((_, third)) = expected(tokens, second, TokenKind::IntegerLiteral, number) {
            remarks_are_kept(tokens, third, first.pending);
            trailing_moves(tokens, third.index);
        }
    }
}

/// The lexer reads no end of input from characters.
proof fn piece_is_no_end(source: Seq<char>, at: int)
    ensures
        piece_at(source, at) matches Ok(found) ==> found.kind != TokenKind::Eof,
{
    number_kind(source, at);
}

/// The end of input is the last token, and no other is.
proof fn end_is_last(source: Seq<char>, at: int, own: bool, before: Seq<TokenModel>)
    requires
        0 <= at <= source.len(),
        forall|i: int| 0 <= i < before.len() ==> (#[trigger] before[i]).kind != TokenKind::Eof,
    ensures
        lexed(source, at, own, before) matches Ok(tokens) ==> tokens.len() > 0
            && tokens.last().kind == TokenKind::Eof && forall|i: int|
            0 <= i < tokens.len() - 1 ==> (#[trigger] tokens[i]).kind != TokenKind::Eof,
    decreases source.len() - at,
{
    if at < source.len() {
        pieces_are_bounded(source, at);
        piece_is_no_end(source, at);
        if let Ok(found) = piece_at(source, at) {
            end_is_last(
                source,
                found.next,
                starts_line(source, at, found, own),
                before.push(token_of(source, at, found, own)),
            );
        }
    }
}

// -- Whole sources -----------------------------------------------------------------

/// No declarations.
spec fn no_declarations() -> Declarations {
    Declarations {
        schemas: Seq::empty(),
        nodes: Seq::empty(),
        edges: Seq::empty(),
        order: Seq::empty(),
    }
}

/// The declarations of a file in source order hold the comments of that order.
proof fn file_declares(file: SourceFileModel, all: Declarations, count: int)
    requires
        all.schemas == file.schemas,
        all.nodes == file.nodes,
        all.edges == file.edges,
        all.order == file.order,
    ensures
        file.declaration_comments(count) == declared(all, count),
    decreases count,
{
    if count > 0 {
        file_declares(file, all, count - 1);
    }
}

/// The comments of a file that was read are those of its tokens, in the same order.
proof fn file_is_kept(tokens: Seq<TokenModel>)
    requires
        tokens.len() > 0,
        tokens.last().kind == TokenKind::Eof,
        forall|i: int|
            0 <= i < tokens.len() - 1 ==> (#[trigger] tokens[i]).kind != TokenKind::Eof,
    ensures
        file_of(tokens) matches Ok(file) ==> (few_enough(file) ==> file.comments() == heard(tokens)
            && file.ordered()),
{
    header_is_kept(tokens);
    if let Ok(file) = file_of(tokens) {
        if few_enough(file) {
            let (_, second) = header(tokens)->Ok_0;
            let none = Seq::<LinkDeclarationModel>::empty();
            let (found, third) = links(tokens, second, none)->Ok_0;
            let nothing = no_declarations();
            let (all, fourth) = declarations(tokens, third, nothing)->Ok_0;
            links_are_kept(tokens, second, none);
            nothing_listed(on_link(), owed(tokens, second));
            links_listed(found, found.len() as int);
            declarations_are_kept(tokens, third, nothing);
            assert(declared_of(nothing) + owed(tokens, third) =~= owed(tokens, third));
            file_declares(file, all, all.order.len() as int);
            assert forall|i: int| 0 <= i < file.order.len() implies match #[trigger] file.order[i] {
                DeclarationRef::Schema(index) => index < file.schemas.len(),
                DeclarationRef::Node(index) => index < file.nodes.len(),
                DeclarationRef::Edge(index) => index < file.edges.len(),
            } by {
                assert(points_within(all, all.order[i]));
            }
            skip_is_kept(tokens, fourth);
            skip_moves(tokens, fourth);
            let last = skip(tokens, fourth);
            end_says_nothing(tokens, last.index);
            assert(owed(tokens, last) =~= last.pending);
            four_join(
                file.version_comments.all(),
                listed_of(found, on_link()),
                declared_of(all),
                last.pending,
            );
        }
    }
}

proof fn end_says_nothing(tokens: Seq<TokenModel>, index: int)
    requires
        tokens.len() > 0,
        tokens.last().kind == TokenKind::Eof,
        forall|i: int|
            0 <= i < tokens.len() - 1 ==> (#[trigger] tokens[i]).kind != TokenKind::Eof,
        0 <= index < tokens.len() ==> tokens[index].kind == TokenKind::Eof,
        0 <= index,
    ensures
        heard_from(tokens, index) == Seq::<CommentModel>::empty(),
{
    if index < tokens.len() {
        assert(index == tokens.len() - 1);
        assert(heard_from(tokens, index + 1) == Seq::<CommentModel>::empty());
    }
}

/// Parsing keeps every comment in its place: the comments of a file are the comments of its
/// source, no more and no less, in the order in which they stand there, and every entry of the
/// order of its declarations points at one of them.
pub proof fn parsing_keeps_comments(source: Seq<char>)
    requires
        parsed(source) matches Ok(file) ==> few_enough(file),
    ensures
        parsed(source) matches Ok(file) ==> (tokens_of(source) matches Ok(tokens)
            && file.comments() == heard(tokens)) && file.ordered(),
{
    end_is_last(source, 0, true, Seq::empty());
    if let Ok(tokens) = tokens_of(source) {
        file_is_kept(tokens);
    }
}

/// Every comment of a source survives formatting: what its comments say is what the comments
/// of its formatted text say, no more and no less.
pub proof fn formatting_keeps_comments(source: Seq<char>)
    requires
        parsed(source) matches Ok(file) ==> few_enough(file),
    ensures
        parsed(source) matches Ok(file) ==> (tokens_of(source) matches Ok(tokens) && (tokens_of(
            formatted(file),
        ) matches Ok(after) && said(heard(after)) == said(heard(tokens)))),
{
    parsing_keeps_comments(source);
    comments_survive(source);
    if let Ok(file) = parsed(source) {
        parsing_keeps_comments(formatted(file));
    }
}

} // verus!
