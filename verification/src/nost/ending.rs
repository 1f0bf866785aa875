//! A formatted text ends with exactly one line break.

use super::clean::parsed_file_can_be_written;
use super::format::block_text;
use super::format::closing_comments;
use super::format::comment_lines;
use super::format::comment_text;
use super::format::edge_head;
use super::format::edge_text;
use super::format::edges_text;
use super::format::formatted;
use super::format::head_line;
use super::format::header_text;
use super::format::line;
use super::format::link_group;
use super::format::link_text;
use super::format::links_text;
use super::format::literal;
use super::format::node_head;
use super::format::node_text;
use super::format::nodes_text;
use super::format::own_lines;
use super::format::record_inside;
use super::format::record_is_empty;
use super::format::record_text;
use super::format::schema_fields_text;
use super::format::schema_head;
use super::format::schema_is_empty;
use super::format::schema_text;
use super::format::schemas_text;
use super::format::with_trailing;
use super::parser::parsed;
use super::parts::all_tidy;
use super::parts::nameable;
use super::parts::sorted_all;
use super::parts::tidy_comments;
use super::parts::writable;
use super::parts::writable_link;
use super::written::tidy;
use super::CommentModel;
use super::CommentsModel;
use super::EdgeDeclaration;
use super::EdgeDeclarationModel;
use super::LinkDeclaration;
use super::LinkDeclarationModel;
use super::NodeDeclaration;
use super::NodeDeclarationModel;
use super::RecordBodyModel;
use super::SchemaDeclaration;
use super::SchemaDeclarationModel;
use super::SchemaField;
use super::SourceFileModel;
use crate::number::digits_of;
use crate::number::digits_read_back;
use crate::number::is_digit;
use crate::order::sorted;
use vstd::prelude::*;

verus! {

/// Whether a text ends with exactly one line break.
pub open spec fn ends_once(text: Seq<char>) -> bool {
    text.len() >= 2 && text[text.len() - 1] == '\n' && text[text.len() - 2] != '\n'
}

/// Whether something stands at the end of a text, and no line break.
spec fn ends_within(text: Seq<char>) -> bool {
    text.len() > 0 && text[text.len() - 1] != '\n'
}

proof fn joined_ends_once(first: Seq<char>, second: Seq<char>)
    ensures
        ends_once(second) ==> ends_once(first + second),
        ends_once(first) && second.len() == 0 ==> ends_once(first + second),
        ends_within(second) ==> ends_within(first + second),
{
    if second.len() == 0 {
        assert(first + second =~= first);
    }
}

proof fn line_ends_once(depth: nat, text: Seq<char>)
    requires
        ends_within(text),
    ensures
        ends_once(line(depth, text)),
{
    reveal_strlit("\n");
}

proof fn comment_ends_within(comment: CommentModel)
    requires
        tidy(comment),
    ensures
        ends_within(comment_text(comment)),
{
    reveal_strlit("*/");
    reveal_strlit("//");
    reveal_strlit("// ");
}

proof fn remarked_ends_within(text: Seq<char>, comments: CommentsModel)
    requires
        ends_within(text),
        tidy_comments(comments),
    ensures
        ends_within(with_trailing(text, comments)),
{
    if let Some(comment) = comments.trailing {
        comment_ends_within(comment);
        joined_ends_once(text + " "@, comment_text(comment));
    }
}

proof fn own_lines_end_once(depth: nat, comments: Seq<CommentModel>)
    requires
        all_tidy(comments),
        comments.len() > 0,
    ensures
        ends_once(own_lines(depth, comments)),
{
    let last = comments.len() - 1;
    comment_ends_within(comments[last]);
    line_ends_once(depth, comment_text(comments[last]));
    joined_ends_once(
        comment_lines(depth, comments, last),
        line(depth, comment_text(comments[last])),
    );
}

proof fn block_ends_once(
    depth: nat,
    head: Seq<char>,
    comments: CommentsModel,
    empty: bool,
    body: Seq<char>,
)
    requires
        tidy_comments(comments),
    ensures
        ends_once(block_text(depth, head, comments, empty, body)),
{
    reveal_strlit(" {}");
    reveal_strlit("}");
    if empty {
        joined_ends_once(head, " {}"@);
        remarked_ends_within(head + " {}"@, comments);
        line_ends_once(depth, with_trailing(head + " {}"@, comments));
    } else {
        line_ends_once(depth, "}"@);
        joined_ends_once(head_line(depth, head, comments, false) + body, line(depth, "}"@));
    }
}

proof fn name_ends_within(name: Seq<char>)
    requires
        nameable(name),
    ensures
        ends_within(name),
{
}

proof fn link_ends_once(link: LinkDeclarationModel)
    requires
        writable_link(link),
    ensures
        ends_once(link_text(link)),
{
    reveal_strlit("\"");
    let head = "@link "@ + literal(link.source.value);
    let named = match link.alias {
        Some(alias) => " as "@ + alias.value,
        None => Seq::empty(),
    };
    joined_ends_once("@link "@, literal(link.source.value));
    match link.alias {
        Some(alias) => {
            name_ends_within(alias.value);
            joined_ends_once(" as "@, alias.value);
            joined_ends_once(head, named);
        },
        None => {
            assert(head + named =~= head);
        },
    }
    remarked_ends_within(head + named, link.comments);
    line_ends_once(0, with_trailing(head + named, link.comments));
    joined_ends_once(
        own_lines(0, link.comments.leading),
        line(0, with_trailing(head + named, link.comments)),
    );
}

proof fn header_ends_once(file: SourceFileModel)
    requires
        tidy_comments(file.version_comments),
    ensures
        ends_once(header_text(file)),
{
    let digits = digits_of(file.version.value as nat);
    let text = "@nost "@ + digits;
    digits_read_back(file.version.value as nat);
    assert(is_digit(digits[digits.len() - 1]));
    joined_ends_once("@nost "@, digits);
    remarked_ends_within(text, file.version_comments);
    line_ends_once(0, with_trailing(text, file.version_comments));
    joined_ends_once(
        own_lines(0, file.version_comments.leading),
        line(0, with_trailing(text, file.version_comments)),
    );
}

proof fn record_ends_once(head: Seq<char>, record: RecordBodyModel, before: Seq<char>)
    requires
        tidy_comments(record.comments),
    ensures
        ends_once(before + record_text(head, record)),
{
    block_ends_once(0, head, record.comments, record_is_empty(record), record_inside(record));
    joined_ends_once(before, record_text(head, record));
}

proof fn schema_ends_once(schema: SchemaDeclarationModel)
    requires
        tidy_comments(schema.comments),
    ensures
        ends_once(schema_text(schema)),
{
    let fields = sorted::<SchemaField>(schema.fields);
    let body = schema_fields_text(fields, fields.len() as int) + own_lines(
        1,
        schema.block_comments,
    );
    let block = block_text(
        0,
        schema_head(schema),
        schema.comments,
        schema_is_empty(schema),
        body,
    );
    block_ends_once(0, schema_head(schema), schema.comments, schema_is_empty(schema), body);
    joined_ends_once(own_lines(0, schema.comments.leading), block);
}

/// A formatted file ends with exactly one line break.
proof fn formatted_file_ends_once(file: SourceFileModel)
    requires
        writable(file),
    ensures
        ends_once(formatted(file)),
{
    let links = sorted::<LinkDeclaration>(file.links);
    let schemas = sorted::<SchemaDeclaration>(file.schemas);
    let nodes = sorted::<NodeDeclaration>(file.nodes);
    let edges = sorted::<EdgeDeclaration>(file.edges);
    let first = header_text(file);
    let second = link_group(file);
    let third = schemas_text(schemas, schemas.len() as int);
    let fourth = nodes_text(nodes, nodes.len() as int);
    let fifth = edges_text(edges, edges.len() as int);
    let sixth = closing_comments(0, file.trailing_comments, true);
    let can_link = |link: LinkDeclarationModel| writable_link(link);
    let can_schema = |schema: SchemaDeclarationModel| tidy_comments(schema.comments);
    let can_node = |node: NodeDeclarationModel| tidy_comments(node.record.comments);
    let can_edge = |edge: EdgeDeclarationModel| tidy_comments(edge.record.comments);
    sorted_all::<LinkDeclaration>(file.links, can_link);
    sorted_all::<SchemaDeclaration>(file.schemas, can_schema);
    sorted_all::<NodeDeclaration>(file.nodes, can_node);
    sorted_all::<EdgeDeclaration>(file.edges, can_edge);
    header_ends_once(file);
    if links.len() > 0 {
        let last = links.len() - 1;
        assert(can_link(links[last]));
        link_ends_once(links[last]);
        joined_ends_once(links_text(links, last), link_text(links[last]));
        joined_ends_once("\n"@, links_text(links, links.len() as int));
    }
    joined_ends_once(first, second);
    if schemas.len() > 0 {
        let last = schemas.len() - 1;
        assert(can_schema(schemas[last]));
        schema_ends_once(schemas[last]);
        joined_ends_once(schemas_text(schemas, last) + "\n"@, schema_text(schemas[last]));
    }
    joined_ends_once(first + second, third);
    if nodes.len() > 0 {
        let last = nodes.len() - 1;
        let node = nodes[last];
        assert(can_node(nodes[last]));
        record_ends_once(
            node_head(node),
            node.record,
            own_lines(0, node.record.comments.leading),
        );
        joined_ends_once(nodes_text(nodes, last) + "\n"@, node_text(node));
    }
    joined_ends_once(first + second + third, fourth);
    if edges.len() > 0 {
        let last = edges.len() - 1;
        let edge = edges[last];
        assert(can_edge(edges[last]));
        record_ends_once(
            edge_head(edge),
            edge.record,
            own_lines(0, edge.record.comments.leading),
        );
        joined_ends_once(edges_text(edges, last) + "\n"@, edge_text(edge));
    }
    joined_ends_once(first + second + third + fourth, fifth);
    if file.trailing_comments.len() > 0 {
        own_lines_end_once(0, file.trailing_comments);
        joined_ends_once("\n"@, own_lines(0, file.trailing_comments));
    }
    joined_ends_once(first + second + third + fourth + fifth, sixth);
}

/// The formatted text of a source that parses ends with exactly one line break.
pub proof fn formatted_text_ends_with_one_line_break(source: Seq<char>)
    ensures
        parsed(source) matches Ok(file) ==> ends_once(formatted(file)),
{
    parsed_file_can_be_written(source);
    if let Ok(file) = parsed(source) {
        formatted_file_ends_once(file);
    }
}

} // verus!
