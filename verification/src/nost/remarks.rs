//! Every comment survives formatting.

use super::clean::parsed_file_can_be_written;
use super::contribution_comments;
use super::evidence_comments;
use super::evidence_field_comments;
use super::field_comments;
use super::format::formatted;
use super::lexer::tokens_of;
use super::lexer::Keyword;
use super::lexer::TokenKind;
use super::lexer::TokenModel;
use super::link_comments;
use super::optional_comment;
use super::parser::declarations;
use super::parser::edge;
use super::parser::edge_moves;
use super::parser::header;
use super::parser::kind;
use super::parser::links;
use super::parser::node;
use super::parser::node_moves;
use super::parser::parsed;
use super::parser::schema;
use super::parser::schema_moves;
use super::parser::skip;
use super::parser::skip_moves;
use super::parser::Cursor;
use super::parser::Declarations;
use super::property_comments;
use super::record_comments;
use super::reread::formatted_file_reads_back;
use super::reread::same_contribution;
use super::reread::same_evidence_block;
use super::reread::same_evidence_field;
use super::reread::same_field;
use super::reread::same_file;
use super::reread::same_link;
use super::reread::same_list;
use super::reread::same_node;
use super::reread::same_edge;
use super::reread::same_property;
use super::reread::same_record;
use super::reread::same_remarks;
use super::reread::same_schema;
use super::schema_comments;
use super::CommentModel;
use super::CommentsModel;
use super::ContributionBlock;
use super::ContributionBlockModel;
use super::DeclarationRef;
use super::EdgeDeclaration;
use super::EdgeDeclarationModel;
use super::EvidenceBlockModel;
use super::EvidenceField;
use super::EvidenceFieldModel;
use super::LinkDeclaration;
use super::LinkDeclarationModel;
use super::NodeDeclaration;
use super::NodeDeclarationModel;
use super::Property;
use super::PropertyModel;
use super::RecordBodyModel;
use super::SchemaDeclaration;
use super::SchemaDeclarationModel;
use super::SchemaField;
use super::SchemaFieldModel;
use super::SourceFileModel;
use crate::order::place;
use crate::order::place_bounds;
use crate::order::sorted;
use crate::order::sorted_length;
use crate::order::Ordered;
use vstd::multiset::Multiset;
use vstd::prelude::*;

verus! {

// -- What comments say -------------------------------------------------------------

/// What a comment says, and whether it is a block.
pub type Said = (Seq<char>, bool);

/// What comments say, in no order.
pub open spec fn said(comments: Seq<CommentModel>) -> Multiset<Said>
    decreases comments.len(),
{
    if comments.len() == 0 {
        Multiset::empty()
    } else {
        said(comments.drop_last()).insert((comments.last().text, comments.last().block))
    }
}

/// What two lists of comments say is what each says.
pub proof fn said_by_both(first: Seq<CommentModel>, second: Seq<CommentModel>)
    ensures
        said(first + second) == said(first).add(said(second)),
    decreases second.len(),
{
    let both = first + second;
    if second.len() == 0 {
        assert(both =~= first);
        assert(said(first).add(said(second)) =~= said(first));
    } else {
        assert(both.drop_last() =~= first + second.drop_last());
        assert(both.last() == second.last());
        said_by_both(first, second.drop_last());
        assert(said(both) =~= said(first).add(said(second)));
    }
}

proof fn said_again(read: Seq<CommentModel>, wrote: Seq<CommentModel>)
    requires
        same_list(read, wrote),
    ensures
        said(read) == said(wrote),
    decreases read.len(),
{
    if read.len() > 0 {
        let a = read.drop_last();
        let b = wrote.drop_last();
        assert forall|i: int| 0 <= i < a.len() implies super::reread::same_comment(
            #[trigger] a[i],
            b[i],
        ) by {
            assert(a[i] == read[i] && b[i] == wrote[i]);
        }
        said_again(a, b);
        assert(super::reread::same_comment(read[read.len() - 1], wrote[wrote.len() - 1]));
    }
}

proof fn remarks_again(read: CommentsModel, wrote: CommentsModel)
    requires
        same_remarks(read, wrote),
    ensures
        said(read.all()) == said(wrote.all()),
{
    said_again(read.leading, wrote.leading);
    said_by_both(read.leading, optional_comment(read.trailing));
    said_by_both(wrote.leading, optional_comment(wrote.trailing));
    said_again(optional_comment(read.trailing), optional_comment(wrote.trailing));
}

// -- Sums --------------------------------------------------------------------------

/// What the first `count` items say together.
pub open spec fn total<A>(items: Seq<A>, says: spec_fn(A) -> Multiset<Said>, count: int) -> Multiset<
    Said,
>
    decreases count,
{
    if count <= 0 {
        Multiset::empty()
    } else {
        total(items, says, count - 1).add(says(items[count - 1]))
    }
}

/// What all items say together.
pub open spec fn total_of<A>(items: Seq<A>, says: spec_fn(A) -> Multiset<Said>) -> Multiset<Said> {
    total(items, says, items.len() as int)
}

proof fn total_of_both<A>(
    first: Seq<A>,
    second: Seq<A>,
    says: spec_fn(A) -> Multiset<Said>,
    count: int,
)
    requires
        0 <= count <= second.len(),
    ensures
        total(first + second, says, first.len() + count) == total_of(first, says).add(
            total(second, says, count),
        ),
    decreases count,
{
    let both = first + second;
    if count == 0 {
        total_agrees(both, first, says, first.len() as int);
        assert(total_of(first, says).add(total(second, says, 0)) =~= total_of(first, says));
    } else {
        total_of_both(first, second, says, count - 1);
        assert(both[first.len() + count - 1] == second[count - 1]);
        assert(total(both, says, first.len() + count) =~= total_of(first, says).add(
            total(second, says, count),
        ));
    }
}

proof fn total_agrees<A>(
    left: Seq<A>,
    right: Seq<A>,
    says: spec_fn(A) -> Multiset<Said>,
    count: int,
)
    requires
        count <= left.len(),
        count <= right.len(),
        forall|i: int| 0 <= i < count ==> says(#[trigger] left[i]) == says(right[i]),
    ensures
        total(left, says, count) == total(right, says, count),
    decreases count,
{
    if count > 0 {
        total_agrees(left, right, says, count - 1);
        assert(says(left[count - 1]) == says(right[count - 1]));
    }
}

/// Sorting changes nothing of what items say together.
proof fn sorting_keeps_total<T: Ordered>(items: Seq<T::V>, says: spec_fn(T::V) -> Multiset<Said>)
    ensures
        total_of(sorted::<T>(items), says) == total_of(items, says),
    decreases items.len(),
{
    if items.len() > 0 {
        let front = items.drop_last();
        let item = items.last();
        let rest = sorted::<T>(front);
        let at = place::<T>(rest, rest.len() as int, item);
        sorting_keeps_total::<T>(front, says);
        sorted_length::<T>(front);
        place_bounds::<T>(rest, rest.len() as int, item);
        let a = rest.take(at);
        let b = seq![item];
        let c = rest.skip(at);
        assert(rest =~= a + c);
        assert(rest.insert(at, item) =~= a + b + c);
        total_of_both(a, c, says, c.len() as int);
        total_of_both(a + b, c, says, c.len() as int);
        total_of_both(a, b, says, 1);
        assert(total(b, says, 1) =~= says(item)) by {
            assert(total(b, says, 0) =~= Multiset::empty());
            assert(b[0] == item);
        }
        total_agrees(items, front, says, front.len() as int);
        assert(total_of(items, says) == total_of(front, says).add(says(item)));
        assert(total_of(a + b, says) == total_of(a, says).add(says(item)));
        assert(total_of(sorted::<T>(items), says) =~= total_of(items, says));
    } else {
        assert(sorted::<T>(items) == items);
    }
}

/// Items that were written in order and read back say the same together.
proof fn total_again<T: Ordered>(
    read: Seq<T::V>,
    wrote: Seq<T::V>,
    says: spec_fn(T::V) -> Multiset<Said>,
)
    requires
        read.len() == sorted::<T>(wrote).len(),
        forall|i: int| 0 <= i < read.len() ==> says(#[trigger] read[i]) == says(sorted::<T>(wrote)[i]),
    ensures
        total_of(read, says) == total_of(wrote, says),
{
    total_agrees(read, sorted::<T>(wrote), says, read.len() as int);
    sorting_keeps_total::<T>(wrote, says);
}

// -- What each construct says ------------------------------------------------------

/// What a schema field says in its comments.
pub open spec fn field_says() -> spec_fn(SchemaFieldModel) -> Multiset<Said> {
    |field: SchemaFieldModel| said(field.comments.all())
}

/// What a property says in its comments.
pub open spec fn property_says() -> spec_fn(PropertyModel) -> Multiset<Said> {
    |property: PropertyModel| said(property.comments.all())
}

/// What an evidence field says in its comments.
pub open spec fn evidence_field_says() -> spec_fn(EvidenceFieldModel) -> Multiset<Said> {
    |field: EvidenceFieldModel| said(field.comments.all())
}

/// What a link says in its comments.
pub open spec fn link_says() -> spec_fn(LinkDeclarationModel) -> Multiset<Said> {
    |link: LinkDeclarationModel| said(link.comments.all())
}

/// What an evidence block says in its comments.
pub open spec fn evidence_says() -> spec_fn(EvidenceBlockModel) -> Multiset<Said> {
    |block: EvidenceBlockModel|
        said(block.comments.all()).add(total_of(block.fields, evidence_field_says())).add(
            said(block.block_comments),
        )
}

/// What a contribution says in its comments.
pub open spec fn contribution_says() -> spec_fn(ContributionBlockModel) -> Multiset<Said> {
    |block: ContributionBlockModel|
        said(block.comments.all()).add(total_of(block.evidence, evidence_says())).add(
            said(block.block_comments),
        )
}

/// What a record says in its comments.
pub open spec fn record_says(record: RecordBodyModel) -> Multiset<Said> {
    said(record.comments.all()).add(total_of(record.properties, property_says())).add(
        total_of(record.contributions, contribution_says()),
    ).add(said(record.block_comments))
}

/// What a schema says in its comments.
pub open spec fn schema_says() -> spec_fn(SchemaDeclarationModel) -> Multiset<Said> {
    |schema: SchemaDeclarationModel|
        said(schema.comments.all()).add(total_of(schema.fields, field_says())).add(
            said(schema.block_comments),
        )
}

/// What a node says in its comments.
pub open spec fn node_says() -> spec_fn(NodeDeclarationModel) -> Multiset<Said> {
    |node: NodeDeclarationModel| record_says(node.record)
}

/// What an edge says in its comments.
pub open spec fn edge_says() -> spec_fn(EdgeDeclarationModel) -> Multiset<Said> {
    |edge: EdgeDeclarationModel| record_says(edge.record)
}

proof fn fields_say(fields: Seq<SchemaFieldModel>, count: int)
    ensures
        said(field_comments(fields, count)) == total(fields, field_says(), count),
    decreases count,
{
    if count > 0 {
        fields_say(fields, count - 1);
        said_by_both(field_comments(fields, count - 1), fields[count - 1].comments.all());
    }
}

proof fn properties_say(properties: Seq<PropertyModel>, count: int)
    ensures
        said(property_comments(properties, count)) == total(properties, property_says(), count),
    decreases count,
{
    if count > 0 {
        properties_say(properties, count - 1);
        said_by_both(property_comments(properties, count - 1), properties[count - 1].comments.all());
    }
}

proof fn evidence_fields_say(fields: Seq<EvidenceFieldModel>, count: int)
    ensures
        said(evidence_field_comments(fields, count)) == total(fields, evidence_field_says(), count),
    decreases count,
{
    if count > 0 {
        evidence_fields_say(fields, count - 1);
        said_by_both(evidence_field_comments(fields, count - 1), fields[count - 1].comments.all());
    }
}

proof fn links_say(links: Seq<LinkDeclarationModel>, count: int)
    ensures
        said(link_comments(links, count)) == total(links, link_says(), count),
    decreases count,
{
    if count > 0 {
        links_say(links, count - 1);
        said_by_both(link_comments(links, count - 1), links[count - 1].comments.all());
    }
}

proof fn evidence_blocks_say(blocks: Seq<EvidenceBlockModel>, count: int)
    ensures
        said(evidence_comments(blocks, count)) == total(blocks, evidence_says(), count),
    decreases count,
{
    if count > 0 {
        evidence_blocks_say(blocks, count - 1);
        let block = blocks[count - 1];
        let a = evidence_comments(blocks, count - 1);
        let b = block.comments.all();
        let c = evidence_field_comments(block.fields, block.fields.len() as int);
        evidence_fields_say(block.fields, block.fields.len() as int);
        said_by_both(a, b);
        said_by_both(a + b, c);
        said_by_both(a + b + c, block.block_comments);
        assert(said(evidence_comments(blocks, count)) =~= total(blocks, evidence_says(), count));
    }
}

proof fn contributions_say(blocks: Seq<ContributionBlockModel>, count: int)
    ensures
        said(contribution_comments(blocks, count)) == total(blocks, contribution_says(), count),
    decreases count,
{
    if count > 0 {
        contributions_say(blocks, count - 1);
        let block = blocks[count - 1];
        let a = contribution_comments(blocks, count - 1);
        let b = block.comments.all();
        let c = evidence_comments(block.evidence, block.evidence.len() as int);
        evidence_blocks_say(block.evidence, block.evidence.len() as int);
        said_by_both(a, b);
        said_by_both(a + b, c);
        said_by_both(a + b + c, block.block_comments);
        assert(said(contribution_comments(blocks, count)) =~= total(
            blocks,
            contribution_says(),
            count,
        ));
    }
}

proof fn a_record_says(record: RecordBodyModel)
    ensures
        said(record_comments(record)) == record_says(record),
{
    let a = record.comments.all();
    let b = property_comments(record.properties, record.properties.len() as int);
    let c = contribution_comments(record.contributions, record.contributions.len() as int);
    properties_say(record.properties, record.properties.len() as int);
    contributions_say(record.contributions, record.contributions.len() as int);
    said_by_both(a, b);
    said_by_both(a + b, c);
    said_by_both(a + b + c, record.block_comments);
}

proof fn a_schema_says(schema: SchemaDeclarationModel)
    ensures
        said(schema_comments(schema)) == schema_says()(schema),
{
    let a = schema.comments.all();
    let b = field_comments(schema.fields, schema.fields.len() as int);
    fields_say(schema.fields, schema.fields.len() as int);
    said_by_both(a, b);
    said_by_both(a + b, schema.block_comments);
}

// -- What was read back says the same ----------------------------------------------

proof fn evidence_again(read: EvidenceBlockModel, wrote: EvidenceBlockModel)
    requires
        same_evidence_block(read, wrote),
    ensures
        evidence_says()(read) == evidence_says()(wrote),
{
    let fields = sorted::<EvidenceField>(wrote.fields);
    assert forall|i: int| 0 <= i < read.fields.len() implies evidence_field_says()(
        #[trigger] read.fields[i],
    ) == evidence_field_says()(fields[i]) by {
        assert(same_evidence_field(read.fields[i], fields[i]));
        remarks_again(read.fields[i].comments, fields[i].comments);
    }
    total_again::<EvidenceField>(read.fields, wrote.fields, evidence_field_says());
    remarks_again(read.comments, wrote.comments);
    said_again(read.block_comments, wrote.block_comments);
}

proof fn contribution_again(read: ContributionBlockModel, wrote: ContributionBlockModel)
    requires
        same_contribution(read, wrote),
    ensures
        contribution_says()(read) == contribution_says()(wrote),
{
    assert forall|i: int| 0 <= i < read.evidence.len() implies evidence_says()(
        #[trigger] read.evidence[i],
    ) == evidence_says()(wrote.evidence[i]) by {
        assert(same_evidence_block(read.evidence[i], wrote.evidence[i]));
        evidence_again(read.evidence[i], wrote.evidence[i]);
    }
    total_agrees(read.evidence, wrote.evidence, evidence_says(), read.evidence.len() as int);
    remarks_again(read.comments, wrote.comments);
    said_again(read.block_comments, wrote.block_comments);
}

proof fn record_again(read: RecordBodyModel, wrote: RecordBodyModel)
    requires
        same_record(read, wrote),
    ensures
        record_says(read) == record_says(wrote),
{
    let properties = sorted::<Property>(wrote.properties);
    let contributions = sorted::<ContributionBlock>(wrote.contributions);
    assert forall|i: int| 0 <= i < read.properties.len() implies property_says()(
        #[trigger] read.properties[i],
    ) == property_says()(properties[i]) by {
        assert(same_property(read.properties[i], properties[i]));
        remarks_again(read.properties[i].comments, properties[i].comments);
    }
    total_again::<Property>(read.properties, wrote.properties, property_says());
    assert forall|i: int| 0 <= i < read.contributions.len() implies contribution_says()(
        #[trigger] read.contributions[i],
    ) == contribution_says()(contributions[i]) by {
        assert(same_contribution(read.contributions[i], contributions[i]));
        contribution_again(read.contributions[i], contributions[i]);
    }
    total_again::<ContributionBlock>(read.contributions, wrote.contributions, contribution_says());
    remarks_again(read.comments, wrote.comments);
    said_again(read.block_comments, wrote.block_comments);
}

proof fn schema_again(read: SchemaDeclarationModel, wrote: SchemaDeclarationModel)
    requires
        same_schema(read, wrote),
    ensures
        schema_says()(read) == schema_says()(wrote),
{
    let fields = sorted::<SchemaField>(wrote.fields);
    assert forall|i: int| 0 <= i < read.fields.len() implies field_says()(#[trigger] read.fields[i])
        == field_says()(fields[i]) by {
        assert(same_field(read.fields[i], fields[i]));
        remarks_again(read.fields[i].comments, fields[i].comments);
    }
    total_again::<SchemaField>(read.fields, wrote.fields, field_says());
    remarks_again(read.comments, wrote.comments);
    said_again(read.block_comments, wrote.block_comments);
}

/// What a file says in its comments, construct by construct.
pub open spec fn file_says(file: SourceFileModel) -> Multiset<Said> {
    said(file.version_comments.all()).add(total_of(file.links, link_says())).add(
        total_of(file.schemas, schema_says()),
    ).add(total_of(file.nodes, node_says())).add(total_of(file.edges, edge_says())).add(
        said(file.trailing_comments),
    )
}

proof fn file_again(read: SourceFileModel, wrote: SourceFileModel)
    requires
        same_file(read, wrote),
    ensures
        file_says(read) == file_says(wrote),
{
    let links = sorted::<LinkDeclaration>(wrote.links);
    let schemas = sorted::<SchemaDeclaration>(wrote.schemas);
    let nodes = sorted::<NodeDeclaration>(wrote.nodes);
    let edges = sorted::<EdgeDeclaration>(wrote.edges);
    remarks_again(read.version_comments, wrote.version_comments);
    said_again(read.trailing_comments, wrote.trailing_comments);
    assert forall|i: int| 0 <= i < read.links.len() implies link_says()(#[trigger] read.links[i])
        == link_says()(links[i]) by {
        assert(same_link(read.links[i], links[i]));
        remarks_again(read.links[i].comments, links[i].comments);
    }
    total_again::<LinkDeclaration>(read.links, wrote.links, link_says());
    assert forall|i: int| 0 <= i < read.schemas.len() implies schema_says()(
        #[trigger] read.schemas[i],
    ) == schema_says()(schemas[i]) by {
        assert(same_schema(read.schemas[i], schemas[i]));
        schema_again(read.schemas[i], schemas[i]);
    }
    total_again::<SchemaDeclaration>(read.schemas, wrote.schemas, schema_says());
    assert forall|i: int| 0 <= i < read.nodes.len() implies node_says()(#[trigger] read.nodes[i])
        == node_says()(nodes[i]) by {
        assert(same_node(read.nodes[i], nodes[i]));
        record_again(read.nodes[i].record, nodes[i].record);
    }
    total_again::<NodeDeclaration>(read.nodes, wrote.nodes, node_says());
    assert forall|i: int| 0 <= i < read.edges.len() implies edge_says()(#[trigger] read.edges[i])
        == edge_says()(edges[i]) by {
        assert(same_edge(read.edges[i], edges[i]));
        record_again(read.edges[i].record, edges[i].record);
    }
    total_again::<EdgeDeclaration>(read.edges, wrote.edges, edge_says());
}

// -- Declarations in source order --------------------------------------------------

/// What the first `count` declarations in source order say.
spec fn order_says(all: Declarations, count: int) -> Multiset<Said>
    decreases count,
{
    if count <= 0 {
        Multiset::empty()
    } else {
        order_says(all, count - 1).add(
            match all.order[count - 1] {
                DeclarationRef::Schema(index) => schema_says()(all.schemas[index as int]),
                DeclarationRef::Node(index) => node_says()(all.nodes[index as int]),
                DeclarationRef::Edge(index) => edge_says()(all.edges[index as int]),
            },
        )
    }
}

/// The declarations of a file.
spec fn declarations_of(file: SourceFileModel) -> Declarations {
    Declarations {
        schemas: file.schemas,
        nodes: file.nodes,
        edges: file.edges,
        order: file.order,
    }
}

proof fn declarations_say(file: SourceFileModel, count: int)
    ensures
        said(file.declaration_comments(count)) == order_says(declarations_of(file), count),
    decreases count,
{
    if count > 0 {
        declarations_say(file, count - 1);
        let before = file.declaration_comments(count - 1);
        match file.order[count - 1] {
            DeclarationRef::Schema(index) => {
                a_schema_says(file.schemas[index as int]);
                said_by_both(before, schema_comments(file.schemas[index as int]));
            },
            DeclarationRef::Node(index) => {
                a_record_says(file.nodes[index as int].record);
                said_by_both(before, record_comments(file.nodes[index as int].record));
            },
            DeclarationRef::Edge(index) => {
                a_record_says(file.edges[index as int].record);
                said_by_both(before, record_comments(file.edges[index as int].record));
            },
        }
    }
}

/// Whether a reference lies within the declarations.
pub open spec fn points_within(all: Declarations, reference: DeclarationRef) -> bool {
    match reference {
        DeclarationRef::Schema(index) => index < all.schemas.len(),
        DeclarationRef::Node(index) => index < all.nodes.len(),
        DeclarationRef::Edge(index) => index < all.edges.len(),
    }
}

/// Whether the source order names every declaration once, as far as comments go.
spec fn order_is_whole(all: Declarations) -> bool {
    &&& forall|i: int| 0 <= i < all.order.len() ==> points_within(all, #[trigger] all.order[i])
    &&& order_says(all, all.order.len() as int) == total_of(all.schemas, schema_says()).add(
        total_of(all.nodes, node_says()),
    ).add(total_of(all.edges, edge_says()))
}

/// Whether one list of declarations starts with another.
pub open spec fn grown(before: Declarations, after: Declarations) -> bool {
    &&& before.schemas.is_prefix_of(after.schemas)
    &&& before.nodes.is_prefix_of(after.nodes)
    &&& before.edges.is_prefix_of(after.edges)
    &&& before.order.is_prefix_of(after.order)
}

proof fn order_agrees(before: Declarations, after: Declarations, count: int)
    requires
        count <= before.order.len(),
        grown(before, after),
        forall|i: int| 0 <= i < before.order.len() ==> points_within(before, #[trigger] before.order[i]),
    ensures
        order_says(after, count) == order_says(before, count),
    decreases count,
{
    if count > 0 {
        order_agrees(before, after, count - 1);
        assert(points_within(before, before.order[count - 1]));
        assert(after.order[count - 1] == before.order[count - 1]);
    }
}

/// One more item says what it says.
pub proof fn one_more_total<A>(items: Seq<A>, item: A, says: spec_fn(A) -> Multiset<Said>)
    ensures
        total_of(items.push(item), says) == total_of(items, says).add(says(item)),
{
    total_agrees(items.push(item), items, says, items.len() as int);
}

proof fn one_more_declared(before: Declarations, after: Declarations)
    requires
        order_is_whole(before),
        before.schemas.len() <= usize::MAX,
        before.nodes.len() <= usize::MAX,
        before.edges.len() <= usize::MAX,
        ({
            ||| exists|found: SchemaDeclarationModel|
                after == (Declarations {
                    schemas: #[trigger] before.schemas.push(found),
                    order: before.order.push(DeclarationRef::Schema(before.schemas.len() as usize)),
                    ..before
                })
            ||| exists|found: NodeDeclarationModel|
                after == (Declarations {
                    nodes: #[trigger] before.nodes.push(found),
                    order: before.order.push(DeclarationRef::Node(before.nodes.len() as usize)),
                    ..before
                })
            ||| exists|found: EdgeDeclarationModel|
                after == (Declarations {
                    edges: #[trigger] before.edges.push(found),
                    order: before.order.push(DeclarationRef::Edge(before.edges.len() as usize)),
                    ..before
                })
        }),
    ensures
        order_is_whole(after),
{
    assert(grown(before, after));
    order_agrees(before, after, before.order.len() as int);
    assert forall|i: int| 0 <= i < after.order.len() implies points_within(
        after,
        #[trigger] after.order[i],
    ) by {
        if i < before.order.len() {
            assert(points_within(before, before.order[i]));
            assert(after.order[i] == before.order[i]);
        }
    }
    let a = total_of(before.schemas, schema_says());
    let b = total_of(before.nodes, node_says());
    let c = total_of(before.edges, edge_says());
    if after.schemas != before.schemas {
        one_more_total(before.schemas, after.schemas.last(), schema_says());
        let d = schema_says()(after.schemas.last());
        assert(after.schemas =~= before.schemas.push(after.schemas.last()));
        assert(a.add(b).add(c).add(d) =~= a.add(d).add(b).add(c));
    } else if after.nodes != before.nodes {
        one_more_total(before.nodes, after.nodes.last(), node_says());
        let d = node_says()(after.nodes.last());
        assert(after.nodes =~= before.nodes.push(after.nodes.last()));
        assert(a.add(b).add(c).add(d) =~= a.add(b.add(d)).add(c));
    } else {
        one_more_total(before.edges, after.edges.last(), edge_says());
        let d = edge_says()(after.edges.last());
        assert(after.edges =~= before.edges.push(after.edges.last()));
        assert(a.add(b).add(c).add(d) =~= a.add(b).add(c.add(d)));
    }
}

/// Whether the declarations can be counted.
pub open spec fn few_enough(file: SourceFileModel) -> bool {
    file.schemas.len() <= usize::MAX && file.nodes.len() <= usize::MAX && file.edges.len()
        <= usize::MAX
}

/// The declarations behind one more schema, node or edge.
pub open spec fn with_next(tokens: Seq<TokenModel>, at: Cursor, before: Declarations) -> Option<
    (Declarations, Cursor),
> {
    if kind(tokens, at) == TokenKind::Keyword(Keyword::Schema) {
        match schema(tokens, at) {
            Err(_) => None,
            Ok((found, next)) => Some(
                (
                    Declarations {
                        schemas: before.schemas.push(found),
                        order: before.order.push(
                            DeclarationRef::Schema(before.schemas.len() as usize),
                        ),
                        ..before
                    },
                    next,
                ),
            ),
        }
    } else if kind(tokens, at) == TokenKind::Keyword(Keyword::Node) {
        match node(tokens, at) {
            Err(_) => None,
            Ok((found, next)) => Some(
                (
                    Declarations {
                        nodes: before.nodes.push(found),
                        order: before.order.push(DeclarationRef::Node(before.nodes.len() as usize)),
                        ..before
                    },
                    next,
                ),
            ),
        }
    } else if kind(tokens, at) == TokenKind::Keyword(Keyword::Edge) {
        match edge(tokens, at) {
            Err(_) => None,
            Ok((found, next)) => Some(
                (
                    Declarations {
                        edges: before.edges.push(found),
                        order: before.order.push(DeclarationRef::Edge(before.edges.len() as usize)),
                        ..before
                    },
                    next,
                ),
            ),
        }
    } else {
        None
    }
}

proof fn read_order_is_whole(tokens: Seq<TokenModel>, cursor: Cursor, before: Declarations)
    requires
        before.schemas.len() <= usize::MAX && before.nodes.len() <= usize::MAX
            && before.edges.len() <= usize::MAX ==> order_is_whole(before),
    ensures
        declarations(tokens, cursor, before) matches Ok((found, _)) ==> before.schemas.len()
            <= found.schemas.len() && before.nodes.len() <= found.nodes.len() && before.edges.len()
            <= found.edges.len() && (found.schemas.len() <= usize::MAX && found.nodes.len()
            <= usize::MAX && found.edges.len() <= usize::MAX ==> order_is_whole(found)),
    decreases tokens.len() - cursor.index,
{
    let at = skip(tokens, cursor);
    skip_moves(tokens, cursor);
    schema_moves(tokens, at);
    node_moves(tokens, at);
    edge_moves(tokens, at);
    if let Some((more, next)) = with_next(tokens, at, before) {
        if before.schemas.len() <= usize::MAX && before.nodes.len() <= usize::MAX
            && before.edges.len() <= usize::MAX {
            if more.schemas.len() > before.schemas.len() {
                assert(more.schemas == before.schemas.push(more.schemas.last()));
            } else if more.nodes.len() > before.nodes.len() {
                assert(more.nodes == before.nodes.push(more.nodes.last()));
            } else {
                assert(more.edges == before.edges.push(more.edges.last()));
            }
            one_more_declared(before, more);
        }
        read_order_is_whole(tokens, next, more);
    }
}

/// A file that was read says in all its comments what its constructs say.
pub proof fn read_file_says(source: Seq<char>)
    ensures
        parsed(source) matches Ok(file) ==> (few_enough(file) ==> said(file.comments())
            == file_says(file)),
{
    if let Ok(file) = parsed(source) {
        let tokens = tokens_of(source)->Ok_0;
        let (_, second) = header(tokens)->Ok_0;
        let none = Seq::<LinkDeclarationModel>::empty();
        let (_, third) = links(tokens, second, none)->Ok_0;
        let nothing = Declarations {
            schemas: Seq::empty(),
            nodes: Seq::empty(),
            edges: Seq::empty(),
            order: Seq::empty(),
        };
        assert(order_says(nothing, 0) =~= total_of(nothing.schemas, schema_says()).add(
            total_of(nothing.nodes, node_says()),
        ).add(total_of(nothing.edges, edge_says())));
        read_order_is_whole(tokens, third, nothing);
        let (found, _) = declarations(tokens, third, nothing)->Ok_0;
        assert(declarations_of(file) == found);
        declarations_say(file, file.order.len() as int);
        links_say(file.links, file.links.len() as int);
        let a = file.version_comments.all();
        let b = link_comments(file.links, file.links.len() as int);
        let c = file.declaration_comments(file.order.len() as int);
        said_by_both(a, b);
        said_by_both(a + b, c);
        said_by_both(a + b + c, file.trailing_comments);
        if few_enough(file) {
            assert(said(file.comments()) =~= file_says(file));
        }
    }
}

/// Every comment survives formatting: what the comments of a source say is what the comments
/// of its formatted text say, no more and no less.
pub proof fn comments_survive(source: Seq<char>)
    requires
        parsed(source) matches Ok(file) ==> few_enough(file),
    ensures
        parsed(source) matches Ok(file) ==> (parsed(formatted(file)) matches Ok(again) && said(
            again.comments(),
        ) == said(file.comments()) && few_enough(again)),
{
    parsed_file_can_be_written(source);
    if let Ok(file) = parsed(source) {
        formatted_file_reads_back(file);
        if let Ok(again) = parsed(formatted(file)) {
            file_again(again, file);
            sorted_length::<SchemaDeclaration>(file.schemas);
            sorted_length::<NodeDeclaration>(file.nodes);
            sorted_length::<EdgeDeclaration>(file.edges);
            read_file_says(source);
            read_file_says(formatted(file));
        }
    }
}

} // verus!
