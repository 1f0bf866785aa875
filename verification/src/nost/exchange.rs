//! What survives the way from a graph to a document and back.
//!
//! A graph that is in order reads back from its own document exactly: identifiers, labels,
//! properties, links, schemas, contributions and evidence.

use super::convert::Build;
use super::convert::ConversionErrorModel;
use super::convert::Parts;
use super::convert::confidence_of;
use super::convert::contribution_from;
use super::convert::contributions_from;
use super::convert::digest_of;
use super::convert::edge_added;
use super::convert::edge_id;
use super::convert::edges_built;
use super::convert::endpoint_added;
use super::convert::evidence_from;
use super::convert::evidence_list;
use super::convert::extra_labels;
use super::convert::fields_from;
use super::convert::find_char;
use super::convert::find_field;
use super::convert::find_name;
use super::convert::generated_names_differ;
use super::convert::graph_from;
use super::convert::label_items;
use super::convert::labels_from;
use super::convert::link_from;
use super::convert::links_from;
use super::convert::method_of;
use super::convert::name_of;
use super::convert::named_labels;
use super::convert::no_parts;
use super::convert::node_added;
use super::convert::nodes_built;
use super::convert::optional_of;
use super::convert::optional_range;
use super::convert::owner_from;
use super::convert::part_added;
use super::convert::parts_from;
use super::convert::parts_of;
use super::convert::placeholder;
use super::convert::placeholder_is_a_name;
use super::convert::position_from;
use super::convert::producer_of;
use super::convert::property_from;
use super::convert::range_from;
use super::convert::scalar_from;
use super::convert::scalars_from;
use super::convert::schema_from;
use super::convert::schemas_from;
use super::convert::score_from;
use super::convert::source_of;
use super::convert::supplied;
use super::convert::unit_from;
use super::convert::with_new;
use super::export::chosen;
use super::export::declared_names;
use super::export::document_of;
use super::export::extra_part;
use super::export::labels_property;
use super::export::named_part;
use super::export::optional_field;
use super::export::ordinary_properties;
use super::export::owner_supplies;
use super::export::producer_fields;
use super::export::range_text;
use super::export::text_field;
use super::export::unplaced_all;
use super::export::written_confidence;
use super::export::written_contribution;
use super::export::written_contributions;
use super::export::written_edge;
use super::export::written_endpoint;
use super::export::written_evidence;
use super::export::written_field;
use super::export::written_fields;
use super::export::written_link;
use super::export::written_method;
use super::export::written_node;
use super::export::written_owner;
use super::export::written_position;
use super::export::written_property;
use super::export::written_range;
use super::export::written_record;
use super::export::written_scalar;
use super::export::written_schema;
use super::export::written_schema_field;
use super::export::written_unit;
use super::export::written_value;
use super::unplaced;
use super::ContributionBlockModel;
use super::EdgeDeclarationModel;
use super::EndpointModel;
use super::EvidenceBlockModel;
use super::EvidenceFieldModel;
use super::EvidenceValueModel;
use super::LinkDeclarationModel;
use super::NodeDeclarationModel;
use super::PropertyModel as WrittenProperty;
use super::SchemaDeclarationModel;
use super::SourceFileModel;
use super::Spanned;
use super::ValueModel;
use crate::contribution::Contribution;
use crate::contribution::ContributionModel;
use crate::contribution::OwnerModel;
use crate::decimal::pattern_bound;
use crate::decimal::read_number;
use crate::evidence::range_fault;
use crate::evidence::valid_digest;
use crate::evidence::valid_score;
use crate::evidence::widened_score;
use crate::evidence::Confidence;
use crate::evidence::EvidenceModel;
use crate::evidence::Score;
use crate::evidence::SourcePosition;
use crate::evidence::SourceRange;
use crate::float::finite;
use crate::float::Format;
use crate::graph::Edge;
use crate::graph::EdgeModel;
use crate::graph::GraphModel;
use crate::graph::Node;
use crate::graph::NodeModel;
use crate::graph::ReferenceModel;
use crate::id::LocalNodeId;
use crate::id::SourceUnitId;
use crate::link::LinkModel;
use crate::locator::locator_fault;
use crate::name::name_fault;
use crate::name::Label;
use crate::name::PropertyKey;
use crate::number::digits_of;
use crate::number::digits_read_back;
use crate::number::digits_read_unsigned;
use crate::number::is_digit;
use crate::number::shown_reads_back;
use crate::order::in_order;
use crate::order::sorted;
use crate::order::sorted_contains;
use crate::order::sorted_is_in_order;
use crate::order::sorted_is_stable;
use crate::order::sorted_keeps_items;
use crate::order::sorted_length;
use crate::order::texts_are_ranked;
use crate::order::Ordered;
use crate::property::valid_datetime;
use crate::property::PropertyModel;
use crate::property::PropertyValue;
use crate::property::ScalarModel;
use crate::schema::Schema;
use crate::schema::SchemaField;
use crate::schema::SchemaFieldModel;
use crate::schema::SchemaModel;
use crate::shortest::shown_double;
use crate::shortest::written_number_reads_back;
use crate::single::reads_as_single;
use crate::single::widened_is_finite;
use crate::single::zero_widens;
use crate::text::precedes;
use crate::text::precedes_irreflexive;
use crate::text::precedes_total;
use crate::text::precedes_transitive;
use crate::link::Link;
use super::convert::free_of;
use super::convert::states;
use super::convert::conversion_uses_what_is_wanted;
use super::convert::leaves_open;
use super::convert::open_documents_want;
use super::convert::stated_in;
use super::convert::built_names_are_declared;
use super::convert::edge_is_next;
use super::convert::edges_use_what_they_want;
use super::convert::node_is_next;
use super::convert::nodes_use_what_they_want;
use super::convert::took;
use super::convert::unresolved;
use super::convert::unresolved_names_nobody;
use super::convert::wanted;
use super::convert::wanted_by_edge;
use super::convert::wants_rest;
use crate::keeping::nodes_differ;
use crate::keeping::edges_differ;
use crate::id::LocalEdgeId;
use vstd::prelude::*;
use vstd::relations::sorted_by;
use vstd::relations::total_ordering;
use vstd::seq_lib::group_to_multiset_ensures;
use vstd::seq_lib::lemma_multiset_commutative;
use vstd::seq_lib::lemma_sorted_unique;

verus! {

// -- Graphs that are in order ------------------------------------------------------

/// Whether a scalar is one a property can hold.
pub open spec fn sound_scalar(scalar: ScalarModel) -> bool {
    match scalar {
        ScalarModel::Float(bits) => finite(bits),
        ScalarModel::DateTime(text) => valid_datetime(text),
        _ => true,
    }
}

/// Whether a value is one a property can hold.
pub open spec fn sound_value(value: PropertyModel) -> bool {
    match value {
        PropertyModel::Scalar(scalar) => sound_scalar(scalar),
        PropertyModel::List(items) => forall|i: int|
            0 <= i < items.len() ==> sound_scalar(#[trigger] items[i]),
    }
}

/// Whether a property has a key of its own, neither of the reserved ones, and a value.
pub open spec fn sound_property(property: (Seq<char>, PropertyModel)) -> bool {
    &&& name_fault(property.0) is None
    &&& property.0 != "id"@
    &&& property.0 != "labels"@
    &&& sound_value(property.1)
}

/// Whether properties are sound and stand in order.
pub open spec fn sound_properties(properties: Seq<(Seq<char>, PropertyModel)>) -> bool {
    &&& forall|i: int| 0 <= i < properties.len() ==> sound_property(#[trigger] properties[i])
    &&& in_order::<(PropertyKey, PropertyValue)>(properties)
}

/// Whether a confidence has a score within its bounds.
pub open spec fn sound_confidence(confidence: Confidence) -> bool {
    match confidence {
        Confidence::Extracted => true,
        Confidence::Inferred { score } => valid_score(score@),
        Confidence::Ambiguous { score } => valid_score(score@),
    }
}

/// Whether a piece of evidence is what its type holds.
pub open spec fn sound_evidence(entry: EvidenceModel) -> bool {
    &&& locator_fault(entry.source) is None
    &&& valid_digest(entry.content_digest)
    &&& entry.resolved_revision matches Some(text) ==> text.len() > 0
    &&& entry.path matches Some(text) ==> text.len() > 0
    &&& entry.range matches Some(range) ==> range_fault(range.from(), range.to()) is None
    &&& entry.producer.len() > 0
    &&& entry.producer_version.len() > 0
    &&& sound_confidence(entry.confidence)
}

/// Whether an owner is what its type holds.
pub open spec fn sound_owner(owner: OwnerModel) -> bool {
    match owner {
        OwnerModel::Analyzer { name, version } => name.len() > 0 && version.len() > 0,
        OwnerModel::AiAnalysis { contract_digest } => valid_digest(contract_digest),
        OwnerModel::User => true,
        OwnerModel::Named { name } => name.len() > 0,
    }
}

/// Whether a contribution is what its type holds.
pub open spec fn sound_contribution(entry: ContributionModel) -> bool {
    &&& sound_owner(entry.owner)
    &&& forall|i: int| 0 <= i < entry.evidence.len() ==> sound_evidence(#[trigger] entry.evidence[i])
}

/// Whether contributions are sound and stand in order.
pub open spec fn sound_contributions(entries: Seq<ContributionModel>) -> bool {
    &&& forall|i: int| 0 <= i < entries.len() ==> sound_contribution(#[trigger] entries[i])
    &&& in_order::<Contribution>(entries)
}

/// Whether labels are names, each there once, in order.
pub open spec fn sound_labels(labels: Seq<Seq<char>>) -> bool {
    &&& forall|i: int| 0 <= i < labels.len() ==> name_fault(#[trigger] labels[i]) is None
    &&& labels.no_duplicates()
    &&& in_order::<Label>(labels)
}

/// Whether a node is sound.
pub open spec fn sound_node(node: NodeModel) -> bool {
    &&& sound_labels(node.labels)
    &&& sound_properties(node.properties)
    &&& sound_contributions(node.contributions)
}

/// Whether a reference names one of the nodes.
pub open spec fn names_one_of(reference: ReferenceModel, nodes: Seq<NodeModel>) -> bool {
    reference matches ReferenceModel::Local(id) && exists|i: int|
        0 <= i < nodes.len() && (#[trigger] nodes[i]).id == id
}

/// Whether an edge is sound and joins two of the nodes.
pub open spec fn sound_edge(edge: EdgeModel, nodes: Seq<NodeModel>) -> bool {
    &&& name_fault(edge.relation) is None
    &&& names_one_of(edge.source, nodes)
    &&& names_one_of(edge.target, nodes)
    &&& sound_properties(edge.properties)
    &&& sound_contributions(edge.contributions)
}

/// Whether a link is what its type holds.
pub open spec fn sound_link(link: LinkModel) -> bool {
    &&& locator_fault(link.source) is None
    &&& link.alias matches Some(alias) ==> name_fault(alias) is None
}

/// Whether a schema is what its type holds, with its fields in order.
pub open spec fn sound_schema(schema: SchemaModel) -> bool {
    &&& name_fault(schema.name) is None
    &&& schema.endpoints matches Some(names) ==> name_fault(names.source) is None && name_fault(
        names.target,
    ) is None
    &&& forall|i: int|
        0 <= i < schema.fields.len() ==> name_fault((#[trigger] schema.fields[i]).key) is None
    &&& in_order::<SchemaField>(schema.fields)
}

/// Whether a graph is in order: every record is what its type holds and stands where it
/// belongs, no property has a reserved key, and every edge joins two nodes of the graph.
pub open spec fn sound_graph(graph: GraphModel) -> bool {
    &&& forall|i: int| 0 <= i < graph.links.len() ==> sound_link(#[trigger] graph.links[i])
    &&& forall|i: int| 0 <= i < graph.schemas.len() ==> sound_schema(#[trigger] graph.schemas[i])
    &&& forall|i: int| 0 <= i < graph.nodes.len() ==> sound_node(#[trigger] graph.nodes[i])
    &&& forall|i: int|
        0 <= i < graph.edges.len() ==> sound_edge(#[trigger] graph.edges[i], graph.nodes)
    &&& in_order::<Link>(graph.links)
    &&& in_order::<Schema>(graph.schemas)
    &&& in_order::<Node>(graph.nodes)
    &&& in_order::<Edge>(graph.edges)
}

// -- Values ------------------------------------------------------------------------

/// A scalar that is written reads back as itself.
pub proof fn scalar_reads_back(scalar: ScalarModel, range: SourceRange)
    requires
        sound_scalar(scalar),
    ensures
        scalar_from(written_scalar(scalar), range) == Ok::<_, ConversionErrorModel>(scalar),
{
    match scalar {
        ScalarModel::Integer(number) => {
            shown_reads_back(number as int);
        },
        ScalarModel::Float(bits) => {
            written_number_reads_back(bits);
        },
        _ => {},
    }
}

proof fn scalars_read_back(items: Seq<ScalarModel>, at: int)
    requires
        0 <= at <= items.len(),
        forall|i: int| 0 <= i < items.len() ==> sound_scalar(#[trigger] items[i]),
    ensures
        scalars_from(
            Seq::new(items.len(), |i: int| unplaced(written_scalar(items[i]))),
            at,
            items.take(at),
        ) == Ok::<_, ConversionErrorModel>(items),
    decreases items.len() - at,
{
    let written = Seq::new(items.len(), |i: int| unplaced(written_scalar(items[i])));
    if at < items.len() {
        scalar_reads_back(items[at], SourceRange::at_origin());
        assert(items.take(at).push(items[at]) =~= items.take(at + 1));
        scalars_read_back(items, at + 1);
    } else {
        assert(items.take(at) =~= items);
    }
}

/// A property value that is written reads back as itself.
pub proof fn value_reads_back(value: PropertyModel)
    requires
        sound_value(value),
    ensures
        property_from(unplaced(written_value(value))) == Ok::<_, ConversionErrorModel>(value),
{
    match value {
        PropertyModel::Scalar(scalar) => {
            scalar_reads_back(scalar, SourceRange::at_origin());
        },
        PropertyModel::List(items) => {
            assert(items.take(0) =~= Seq::empty());
            scalars_read_back(items, 0);
        },
    }
}

// -- Record bodies -----------------------------------------------------------------

proof fn ordinary_read_back(
    written: Seq<WrittenProperty>,
    start: int,
    properties: Seq<(Seq<char>, PropertyModel)>,
    at: int,
    parts: Parts,
)
    requires
        0 <= start,
        0 <= at <= properties.len(),
        written.len() == start + properties.len(),
        forall|i: int|
            0 <= i < properties.len() ==> written[start + i] == written_property(
                (#[trigger] properties[i]).0,
                written_value(properties[i].1),
            ),
        forall|i: int| 0 <= i < properties.len() ==> sound_property(#[trigger] properties[i]),
        parts.properties == properties.take(at),
    ensures
        parts_from(written, start + at, parts) == Ok::<_, ConversionErrorModel>(
            Parts { properties, ..parts },
        ),
    decreases properties.len() - at,
{
    if at < properties.len() {
        value_reads_back(properties[at].1);
        let next = Parts { properties: parts.properties.push(properties[at]), ..parts };
        assert(properties.take(at).push(properties[at]) =~= properties.take(at + 1));
        assert(written[start + at] == written_property(
            properties[at].0,
            written_value(properties[at].1),
        ));
        assert(part_added(parts, written[start + at]) == Ok::<_, ConversionErrorModel>(next));
        ordinary_read_back(written, start, properties, at + 1, next);
    } else {
        assert(properties.take(at) =~= properties);
    }
}

proof fn extra_read_back(extra: Seq<Seq<char>>, at: int)
    requires
        0 <= at <= extra.len(),
    ensures
        label_items(
            Seq::new(extra.len(), |i: int| unplaced(ValueModel::String(extra[i]))),
            at,
            extra.take(at),
        ) == Ok::<_, ConversionErrorModel>(extra),
    decreases extra.len() - at,
{
    if at < extra.len() {
        assert(extra.take(at).push(extra[at]) =~= extra.take(at + 1));
        extra_read_back(extra, at + 1);
    } else {
        assert(extra.take(at) =~= extra);
    }
}

/// The parts of a record body that is written read back as themselves.
pub proof fn parts_read_back(
    id: Seq<char>,
    properties: Seq<(Seq<char>, PropertyModel)>,
    extra: Seq<Seq<char>>,
    contributions: Seq<ContributionModel>,
)
    requires
        sound_properties(properties),
    ensures
        parts_of(written_record(id, properties, extra, contributions)) == Ok::<
            _,
            ConversionErrorModel,
        >(Parts { id: Some(id), extra, properties }),
{
    reveal_strlit("id");
    reveal_strlit("labels");
    let written = written_record(id, properties, extra, contributions).properties;
    let first = Parts { id: Some(id), ..no_parts() };
    assert(written[0] == written_property("id"@, ValueModel::String(id)));
    assert(part_added(no_parts(), written[0]) == Ok::<_, ConversionErrorModel>(first));
    assert(properties.take(0) =~= Seq::empty());
    if extra.len() == 0 {
        assert forall|i: int| 0 <= i < properties.len() implies written[1 + i] == written_property(
            (#[trigger] properties[i]).0,
            written_value(properties[i].1),
        ) by {
            assert(written[1 + i] == ordinary_properties(properties)[i]);
        }
        ordinary_read_back(written, 1, properties, 0, first);
        assert(extra =~= Seq::empty());
    } else {
        let second = Parts { extra, ..first };
        let list = Seq::new(extra.len(), |i: int| unplaced(ValueModel::String(extra[i])));
        assert(written[1] == labels_property(extra)[0]);
        assert(extra.take(0) =~= Seq::empty());
        extra_read_back(extra, 0);
        assert(part_added(first, written[1]) == Ok::<_, ConversionErrorModel>(second));
        assert forall|i: int| 0 <= i < properties.len() implies written[2 + i] == written_property(
            (#[trigger] properties[i]).0,
            written_value(properties[i].1),
        ) by {
            assert(written[2 + i] == ordinary_properties(properties)[i]);
        }
        ordinary_read_back(written, 2, properties, 0, second);
        assert(parts_from(written, 1, first) == parts_from(written, 2, second));
    }
}

// -- Labels ------------------------------------------------------------------------

proof fn new_label(labels: Seq<Seq<char>>, at: int)
    requires
        0 <= at < labels.len(),
        labels.no_duplicates(),
    ensures
        with_new(labels.take(at), labels[at]) == labels.take(at + 1),
{
    if labels.take(at).contains(labels[at]) {
        let i = choose|i: int| 0 <= i < at && labels.take(at)[i] == labels[at];
        assert(labels[i] == labels[at]);
    }
    assert(labels.take(at).push(labels[at]) =~= labels.take(at + 1));
}

proof fn named_read_back(named: Seq<Seq<char>>, all: Seq<Seq<char>>, at: int)
    requires
        0 <= at <= named.len() <= all.len(),
        all.no_duplicates(),
        forall|i: int| 0 <= i < named.len() ==> #[trigger] all[i] == named[i],
        forall|i: int| 0 <= i < named.len() ==> name_fault(#[trigger] named[i]) is None,
    ensures
        named_labels(unplaced_all(named), at, all.take(at)) == Ok::<_, ConversionErrorModel>(
            all.take(named.len() as int),
        ),
    decreases named.len() - at,
{
    if at < named.len() {
        assert(unplaced_all(named)[at].value == named[at]);
        assert(all[at] == named[at]);
        new_label(all, at);
        named_read_back(named, all, at + 1);
    }
}

proof fn others_read_back(
    extra: Seq<Seq<char>>,
    all: Seq<Seq<char>>,
    start: int,
    range: SourceRange,
    at: int,
)
    requires
        0 <= at <= extra.len(),
        0 <= start,
        all.len() == start + extra.len(),
        all.no_duplicates(),
        forall|i: int| 0 <= i < extra.len() ==> all[start + i] == #[trigger] extra[i],
        forall|i: int| 0 <= i < extra.len() ==> name_fault(#[trigger] extra[i]) is None,
    ensures
        extra_labels(extra, at, range, all.take(start + at)) == Ok::<_, ConversionErrorModel>(all),
    decreases extra.len() - at,
{
    if at < extra.len() {
        assert(all[start + at] == extra[at]);
        new_label(all, start + at);
        others_read_back(extra, all, start, range, at + 1);
    } else {
        assert(all.take(start + at) =~= all);
    }
}

/// What is chosen of labels is some of them.
proof fn chosen_are_labels(labels: Seq<Seq<char>>, count: int, among: Seq<Seq<char>>, wanted: bool)
    requires
        0 <= count <= labels.len(),
    ensures
        forall|i: int|
            0 <= i < chosen(labels, count, among, wanted).len() ==> labels.contains(
                #[trigger] chosen(labels, count, among, wanted)[i],
            ) && among.contains(chosen(labels, count, among, wanted)[i]) == wanted,
        forall|i: int|
            0 <= i < count && among.contains(#[trigger] labels[i]) == wanted ==> chosen(
                labels,
                count,
                among,
                wanted,
            ).contains(labels[i]),
    decreases count,
{
    if count > 0 {
        chosen_are_labels(labels, count - 1, among, wanted);
        let last = labels[count - 1];
        let rest = chosen(labels, count - 1, among, wanted);
        let all = chosen(labels, count, among, wanted);
        assert(labels.contains(last));
        assert forall|i: int|
            0 <= i < count && among.contains(#[trigger] labels[i]) == wanted implies all.contains(
            labels[i],
        ) by {
            if i == count - 1 {
                assert(all[all.len() - 1] == last);
            } else {
                assert(rest.contains(labels[i]));
                let j = choose|j: int| 0 <= j < rest.len() && rest[j] == labels[i];
                assert(all[j] == labels[i]);
            }
        }
    }
}

/// Choosing depends on which of the labels are among the given ones alone.
proof fn chosen_agree(
    labels: Seq<Seq<char>>,
    count: int,
    among: Seq<Seq<char>>,
    other: Seq<Seq<char>>,
    wanted: bool,
)
    requires
        0 <= count <= labels.len(),
        forall|i: int|
            0 <= i < labels.len() ==> among.contains(#[trigger] labels[i]) == other.contains(
                labels[i],
            ),
    ensures
        chosen(labels, count, among, wanted) == chosen(labels, count, other, wanted),
    decreases count,
{
    if count > 0 {
        chosen_agree(labels, count - 1, among, other, wanted);
    }
}

/// The labels are those that are among the given ones and those that are not.
proof fn chosen_split(labels: Seq<Seq<char>>, count: int, among: Seq<Seq<char>>)
    requires
        0 <= count <= labels.len(),
    ensures
        (chosen(labels, count, among, true) + chosen(labels, count, among, false)).to_multiset()
            =~= labels.take(count).to_multiset(),
    decreases count,
{
    broadcast use group_to_multiset_ensures;

    let yes = chosen(labels, count, among, true);
    let no = chosen(labels, count, among, false);
    lemma_multiset_commutative(yes, no);
    if count > 0 {
        chosen_split(labels, count - 1, among);
        let last = labels[count - 1];
        let fewer = chosen(labels, count - 1, among, true);
        let others = chosen(labels, count - 1, among, false);
        lemma_multiset_commutative(fewer, others);
        assert(labels.take(count) =~= labels.take(count - 1).push(last));
    } else {
        assert(labels.take(count) =~= Seq::empty());
        assert(yes + no =~= Seq::empty());
    }
}

proof fn only_first(labels: Seq<Seq<char>>, count: int)
    requires
        0 < count <= labels.len(),
        labels.no_duplicates(),
    ensures
        chosen(labels, count, seq![labels[0]], true) == seq![labels[0]],
    decreases count,
{
    let first = seq![labels[0]];
    assert(first[0] == labels[0]);
    if count > 1 {
        only_first(labels, count - 1);
        assert(labels[count - 1] != labels[0]);
        assert(!first.contains(labels[count - 1]));
    } else {
        assert(first.contains(labels[0]));
        assert(chosen(labels, 0, first, true) =~= Seq::empty());
        assert(chosen(labels, 1, first, true) =~= first);
    }
}

/// The labels written as schema names and the rest are the labels.
proof fn split_is_whole(labels: Seq<Seq<char>>, declared: Seq<Seq<char>>)
    requires
        labels.no_duplicates(),
    ensures
        (named_part(labels, declared) + extra_part(labels, declared)).to_multiset()
            =~= labels.to_multiset(),
        forall|i: int|
            0 <= i < named_part(labels, declared).len() ==> labels.contains(
                #[trigger] named_part(labels, declared)[i],
            ),
        forall|i: int|
            0 <= i < extra_part(labels, declared).len() ==> labels.contains(
                #[trigger] extra_part(labels, declared)[i],
            ),
{
    let count = labels.len() as int;
    let named = named_part(labels, declared);
    let found = chosen(labels, count, declared, true);
    chosen_are_labels(labels, count, declared, true);
    assert(named == chosen(labels, count, named, true)) by {
        if found.len() == 0 && labels.len() > 0 {
            only_first(labels, count);
        } else {
            assert forall|i: int| 0 <= i < labels.len() implies declared.contains(
                #[trigger] labels[i],
            ) == named.contains(labels[i]) by {
                if named.contains(labels[i]) {
                    let j = choose|j: int| 0 <= j < named.len() && named[j] == labels[i];
                    assert(declared.contains(found[j]));
                }
            }
            chosen_agree(labels, count, declared, named, true);
        }
    }
    chosen_are_labels(labels, count, named, true);
    chosen_are_labels(labels, count, named, false);
    chosen_split(labels, count, named);
    assert(labels.take(count) =~= labels);
}

/// Labels in order are determined by which they are.
proof fn labels_in_order_are_one(left: Seq<Seq<char>>, right: Seq<Seq<char>>)
    requires
        in_order::<Label>(left),
        in_order::<Label>(right),
        left.to_multiset() == right.to_multiset(),
    ensures
        left == right,
{
    let leq = |a: Seq<char>, b: Seq<char>| !precedes(b, a);
    assert(total_ordering(leq)) by {
        assert forall|x: Seq<char>| #[trigger] leq(x, x) by {
            precedes_irreflexive(x);
        }
        assert forall|x: Seq<char>, y: Seq<char>| #[trigger] leq(x, y) && #[trigger] leq(y, x) implies x == y by {
            precedes_total(x, y);
        }
        assert forall|x: Seq<char>, y: Seq<char>, z: Seq<char>| #[trigger] leq(x, y) && #[trigger] leq(y, z) implies leq(x, z) by {
            texts_are_ranked(x, y, z);
        }
        assert forall|x: Seq<char>, y: Seq<char>| #[trigger] leq(x, y) || #[trigger] leq(y, x) by {
            if precedes(y, x) && precedes(x, y) {
                precedes_transitive(x, y, x);
                precedes_irreflexive(x);
            }
        }
    }
    assert(sorted_by(left, leq)) by {
        assert forall|i: int, j: int| 0 <= i < j < left.len() implies #[trigger] leq(left[i], left[j]) by {
            assert(!<Label as Ordered>::before(left[j], left[i]));
        }
    }
    assert(sorted_by(right, leq)) by {
        assert forall|i: int, j: int| 0 <= i < j < right.len() implies #[trigger] leq(right[i], right[j]) by {
            assert(!<Label as Ordered>::before(right[j], right[i]));
        }
    }
    lemma_sorted_unique(left, right, leq);
}

/// Labels that are split between the schema names and the rest read back as themselves.
pub proof fn labels_read_back(labels: Seq<Seq<char>>, declared: Seq<Seq<char>>, range: SourceRange)
    requires
        sound_labels(labels),
    ensures
        labels_from(
            unplaced_all(named_part(labels, declared)),
            extra_part(labels, declared),
            range,
        ) matches Ok(found) && sorted::<Label>(found) == labels,
{
    let named = named_part(labels, declared);
    let extra = extra_part(labels, declared);
    let all = named + extra;
    split_is_whole(labels, declared);
    labels.lemma_multiset_has_no_duplicates();
    assert(all.to_multiset() == labels.to_multiset());
    all.lemma_multiset_has_no_duplicates_conv();
    assert(all.take(0) =~= Seq::empty());
    assert forall|i: int| 0 <= i < named.len() implies name_fault(#[trigger] named[i]) is None by {
        let j = choose|j: int| 0 <= j < labels.len() && labels[j] == named[i];
    }
    assert forall|i: int| 0 <= i < extra.len() implies name_fault(#[trigger] extra[i]) is None by {
        let j = choose|j: int| 0 <= j < labels.len() && labels[j] == extra[i];
    }
    named_read_back(named, all, 0);
    others_read_back(extra, all, named.len() as int, range, 0);
    sorted_keeps_items::<Label>(all);
    sorted_is_in_order::<Label>(all);
    labels_in_order_are_one(sorted::<Label>(all), labels);
}

// -- Evidence ----------------------------------------------------------------------

/// The value of the first field with a key.
pub open spec fn first_value(fields: Seq<EvidenceFieldModel>, key: Seq<char>) -> Option<
    Spanned<EvidenceValueModel>,
> {
    match find_field(fields, key, 0) {
        None => None,
        Some(at) => Some(fields[at].value),
    }
}

proof fn find_in_first(
    first: Seq<EvidenceFieldModel>,
    second: Seq<EvidenceFieldModel>,
    key: Seq<char>,
    at: int,
)
    requires
        0 <= at <= first.len(),
    ensures
        match find_field(first, key, at) {
            Some(place) => at <= place < first.len() && find_field(first + second, key, at)
                == Some(place),
            None => find_field(first + second, key, at) == find_field(
                first + second,
                key,
                first.len() as int,
            ),
        },
    decreases first.len() - at,
{
    if at < first.len() {
        assert((first + second)[at] == first[at]);
        if first[at].key.value != key {
            find_in_first(first, second, key, at + 1);
        }
    }
}

proof fn find_in_second(
    first: Seq<EvidenceFieldModel>,
    second: Seq<EvidenceFieldModel>,
    key: Seq<char>,
    at: int,
)
    requires
        0 <= at <= second.len(),
    ensures
        match find_field(second, key, at) {
            Some(place) => at <= place < second.len() && find_field(
                first + second,
                key,
                first.len() + at,
            ) == Some(first.len() + place),
            None => find_field(first + second, key, first.len() + at) is None,
        },
    decreases second.len() - at,
{
    if at < second.len() {
        assert((first + second)[first.len() + at] == second[at]);
        if second[at].key.value != key {
            find_in_second(first, second, key, at + 1);
        }
    }
}

proof fn first_of_both(
    first: Seq<EvidenceFieldModel>,
    second: Seq<EvidenceFieldModel>,
    key: Seq<char>,
)
    ensures
        first_value(first + second, key) == (if first_value(first, key) is Some {
            first_value(first, key)
        } else {
            first_value(second, key)
        }),
{
    find_in_first(first, second, key, 0);
    find_in_second(first, second, key, 0);
}

proof fn first_of_one(field: EvidenceFieldModel, key: Seq<char>)
    ensures
        first_value(seq![field], key) == (if field.key.value == key {
            Some(field.value)
        } else {
            None
        }),
        first_value(Seq::<EvidenceFieldModel>::empty(), key) is None,
{
    reveal_with_fuel(find_field, 3);
    assert(seq![field][0] == field);
}

/// What a key finds in the fields of an evidence block.
pub open spec fn kept_value(
    entry: EvidenceModel,
    inherited: Option<(Seq<char>, Seq<char>)>,
    key: Seq<char>,
) -> Option<Spanned<EvidenceValueModel>> {
    let redundant = inherited == Some((entry.producer, entry.producer_version));
    if key == "source"@ {
        Some(unplaced(EvidenceValueModel::Text(entry.source)))
    } else if key == "revision"@ && entry.resolved_revision is Some {
        Some(unplaced(EvidenceValueModel::Text(entry.resolved_revision->0)))
    } else if key == "path"@ && entry.path is Some {
        Some(unplaced(EvidenceValueModel::Text(entry.path->0)))
    } else if key == "digest"@ {
        Some(unplaced(EvidenceValueModel::Text(entry.content_digest)))
    } else if key == "range"@ && entry.range is Some {
        Some(unplaced(EvidenceValueModel::Text(written_range(entry.range->0))))
    } else if key == "producer"@ && !redundant {
        Some(unplaced(EvidenceValueModel::Text(entry.producer)))
    } else if key == "producer_version"@ && !redundant {
        Some(unplaced(EvidenceValueModel::Text(entry.producer_version)))
    } else if key == "method"@ {
        Some(unplaced(written_method(entry.method)))
    } else if key == "confidence"@ {
        Some(unplaced(written_confidence(entry.confidence)))
    } else {
        None
    }
}

/// Every key finds in the fields of an evidence block what was written under it.
pub proof fn fields_keep_values(
    entry: EvidenceModel,
    inherited: Option<(Seq<char>, Seq<char>)>,
    key: Seq<char>,
)
    ensures
        first_value(written_fields(entry, inherited), key) == kept_value(entry, inherited, key),
{
    let a = Seq::empty().push(text_field("source"@, entry.source));
    assert(a =~= seq![text_field("source"@, entry.source)]);
    let b = optional_field("revision"@, entry.resolved_revision);
    let c = optional_field("path"@, entry.path);
    let d = seq![text_field("digest"@, entry.content_digest)];
    let e = optional_field("range"@, range_text(entry.range));
    let f = producer_fields(entry, inherited);
    let g = seq![written_field("method"@, written_method(entry.method))];
    let h = seq![written_field("confidence"@, written_confidence(entry.confidence))];
    first_of_both(a, b, key);
    first_of_both(a + b, c, key);
    first_of_both(a + b + c, d, key);
    first_of_both(a + b + c + d, e, key);
    first_of_both(a + b + c + d + e, f, key);
    first_of_both(a + b + c + d + e + f, g, key);
    first_of_both(a + b + c + d + e + f + g, h, key);
    first_of_one(text_field("source"@, entry.source), key);
    if let Some(text) = entry.resolved_revision {
        first_of_one(text_field("revision"@, text), key);
    }
    if let Some(text) = entry.path {
        first_of_one(text_field("path"@, text), key);
    }
    first_of_one(text_field("digest"@, entry.content_digest), key);
    if let Some(range) = entry.range {
        first_of_one(text_field("range"@, written_range(range)), key);
    }
    let one = text_field("producer"@, entry.producer);
    let two = text_field("producer_version"@, entry.producer_version);
    first_of_one(one, key);
    first_of_one(two, key);
    first_of_both(seq![one], seq![two], key);
    assert(seq![one] + seq![two] =~= seq![one, two]);
    first_of_one(written_field("method"@, written_method(entry.method)), key);
    first_of_one(written_field("confidence"@, written_confidence(entry.confidence)), key);
}

/// No two keys of an evidence block are the same.
pub proof fn keys_differ()
    ensures
        seq![
            "source"@,
            "revision"@,
            "path"@,
            "digest"@,
            "range"@,
            "producer"@,
            "producer_version"@,
            "method"@,
            "confidence"@,
        ].no_duplicates(),
{
    reveal_strlit("source");
    reveal_strlit("revision");
    reveal_strlit("path");
    reveal_strlit("digest");
    reveal_strlit("range");
    reveal_strlit("producer");
    reveal_strlit("producer_version");
    reveal_strlit("method");
    reveal_strlit("confidence");
    assert("source"@[0] == 's');
    assert("digest"@[0] == 'd');
    assert("method"@[0] == 'm');
    assert("revision"@[0] == 'r');
    assert("producer"@[0] == 'p');
    assert("source"@.len() == 6);
    assert("revision"@.len() == 8);
    assert("path"@.len() == 4);
    assert("digest"@.len() == 6);
    assert("range"@.len() == 5);
    assert("producer"@.len() == 8);
    assert("producer_version"@.len() == 16);
    assert("method"@.len() == 6);
    assert("confidence"@.len() == 10);
}

proof fn char_is_found(text: Seq<char>, wanted: char, at: int, place: int)
    requires
        0 <= at <= place < text.len(),
        text[place] == wanted,
        forall|i: int| at <= i < place ==> #[trigger] text[i] != wanted,
    ensures
        find_char(text, wanted, at) == Some(place),
    decreases place - at,
{
    if at < place {
        char_is_found(text, wanted, at + 1, place);
    }
}

proof fn char_is_absent(text: Seq<char>, wanted: char, at: int)
    requires
        0 <= at <= text.len(),
        forall|i: int| at <= i < text.len() ==> #[trigger] text[i] != wanted,
    ensures
        find_char(text, wanted, at) is None,
    decreases text.len() - at,
{
    if at < text.len() {
        char_is_absent(text, wanted, at + 1);
    }
}

/// A position that is written reads back as itself, and holds no hyphen.
pub proof fn position_reads_back(position: SourcePosition)
    ensures
        position_from(written_position(position)) == Some(position),
        forall|i: int|
            0 <= i < written_position(position).len() ==> #[trigger] written_position(position)[i]
                != '-',
{
    reveal_strlit(":");
    let text = written_position(position);
    let line = digits_of(position.line as nat);
    let column = digits_of(position.column as nat);
    let offset = digits_of(position.offset as nat);
    digits_read_back(position.line as nat);
    digits_read_back(position.column as nat);
    digits_read_back(position.offset as nat);
    let first = line.len() as int;
    let second = first + 1 + column.len();
    assert forall|i: int| 0 <= i < first implies is_digit(#[trigger] text[i]) by {
        assert(text[i] == line[i]);
    }
    assert forall|i: int| first < i < second implies is_digit(#[trigger] text[i]) by {
        assert(text[i] == column[i - first - 1]);
    }
    assert forall|i: int| second < i < text.len() implies is_digit(#[trigger] text[i]) by {
        assert(text[i] == offset[i - second - 1]);
    }
    assert(text[first] == ':');
    assert(text[second] == ':');
    char_is_found(text, ':', 0, first);
    char_is_found(text, ':', first + 1, second);
    char_is_absent(text, ':', second + 1);
    assert(text.subrange(0, first) =~= line);
    assert(text.subrange(first + 1, second) =~= column);
    assert(text.subrange(second + 1, text.len() as int) =~= offset);
    digits_read_unsigned(position.line as nat, u32::MAX as int);
    digits_read_unsigned(position.column as nat, u32::MAX as int);
    digits_read_unsigned(position.offset as nat, u64::MAX as int);
}

/// A range that is written reads back as itself.
pub proof fn range_reads_back(range: SourceRange, at: SourceRange)
    requires
        range_fault(range.from(), range.to()) is None,
    ensures
        range_from(written_range(range), at) == Ok::<_, ConversionErrorModel>(range),
{
    reveal_strlit("-");
    let text = written_range(range);
    let first = written_position(range.from());
    let second = written_position(range.to());
    position_reads_back(range.from());
    position_reads_back(range.to());
    let mark = first.len() as int;
    assert forall|i: int| 0 <= i < mark implies #[trigger] text[i] != '-' by {
        assert(text[i] == first[i]);
    }
    assert(text[mark] == '-');
    char_is_found(text, '-', 0, mark);
    assert(text.subrange(0, mark) =~= first);
    assert(text.subrange(mark + 1, text.len() as int) =~= second);
    range.ends_determine();
}

/// A score that is written reads back as itself.
pub proof fn score_reads_back(score: Score, word: Seq<char>, range: SourceRange)
    requires
        valid_score(score@),
    ensures
        score_from(word, Some(shown_double(widened_score(score@))), range) == Ok::<
            _,
            ConversionErrorModel,
        >(score),
{
    let bits = widened_score(score@);
    let text = shown_double(bits);
    score.bits_determine();
    if score@ == 0x8000_0000 {
        widened_is_finite(0);
        written_number_reads_back(bits);
        pattern_bound(text, Format::double());
        zero_widens();
        assert(read_number(text, Format::double()) == Some((true, crate::float::widened(0))));
        reads_as_single(text, true, 0);
    } else {
        widened_is_finite(score@ as u64);
        written_number_reads_back(bits);
        pattern_bound(text, Format::double());
        assert(read_number(text, Format::double()) == Some((false, bits)));
        reads_as_single(text, false, score@ as u64);
    }
}

/// The method, the confidence and the rest of a piece of evidence read back.
pub proof fn evidence_reads_back(
    entry: EvidenceModel,
    inherited: Option<(Seq<char>, Seq<char>)>,
)
    requires
        sound_evidence(entry),
    ensures
        evidence_from(written_evidence(entry, inherited), inherited) == Ok::<
            _,
            ConversionErrorModel,
        >(entry),
{
    let block = written_evidence(entry, inherited);
    let keys = seq![
        "source"@,
        "revision"@,
        "path"@,
        "digest"@,
        "range"@,
        "producer"@,
        "producer_version"@,
        "method"@,
        "confidence"@,
    ];
    keys_differ();
    assert forall|i: int, j: int| 0 <= i < 9 && 0 <= j < 9 && i != j implies #[trigger] keys[i]
        != #[trigger] keys[j] by {}
    fields_keep_values(entry, inherited, keys[0]);
    fields_keep_values(entry, inherited, keys[1]);
    fields_keep_values(entry, inherited, keys[2]);
    fields_keep_values(entry, inherited, keys[3]);
    fields_keep_values(entry, inherited, keys[4]);
    fields_keep_values(entry, inherited, keys[5]);
    fields_keep_values(entry, inherited, keys[6]);
    fields_keep_values(entry, inherited, keys[7]);
    fields_keep_values(entry, inherited, keys[8]);
    assert(source_of(block) == Ok::<_, ConversionErrorModel>(entry.source));
    assert(digest_of(block) == Ok::<_, ConversionErrorModel>(entry.content_digest));
    assert(optional_of(block, "revision"@) == Ok::<_, ConversionErrorModel>(
        entry.resolved_revision,
    ));
    assert(optional_of(block, "path"@) == Ok::<_, ConversionErrorModel>(entry.path));
    assert(optional_range(block) == Ok::<_, ConversionErrorModel>(entry.range)) by {
        if let Some(range) = entry.range {
            range_reads_back(range, SourceRange::at_origin());
        }
    }
    assert(producer_of(block, inherited) == Ok::<_, ConversionErrorModel>(
        (entry.producer, entry.producer_version),
    ));
    words_differ();
    assert(method_of(block) == Ok::<_, ConversionErrorModel>(entry.method));
    assert(confidence_of(block) == Ok::<_, ConversionErrorModel>(entry.confidence)) by {
        match entry.confidence {
            Confidence::Extracted => {},
            Confidence::Inferred { score } => {
                score_reads_back(score, "inferred"@, SourceRange::at_origin());
            },
            Confidence::Ambiguous { score } => {
                score_reads_back(score, "ambiguous"@, SourceRange::at_origin());
            },
        }
    }
}

/// The words for methods differ, and so do those for confidences.
pub proof fn words_differ()
    ensures
        "deterministic"@ != "ai_inferred"@,
        "deterministic"@ != "user_declared"@,
        "ai_inferred"@ != "user_declared"@,
        "extracted"@ != "inferred"@,
        "extracted"@ != "ambiguous"@,
        "inferred"@ != "ambiguous"@,
{
    reveal_strlit("deterministic");
    reveal_strlit("ai_inferred");
    reveal_strlit("user_declared");
    reveal_strlit("extracted");
    reveal_strlit("inferred");
    reveal_strlit("ambiguous");
    assert("deterministic"@[0] == 'd');
    assert("ai_inferred"@[0] == 'a');
    assert("user_declared"@[0] == 'u');
    assert("extracted"@[0] == 'e');
    assert("inferred"@[0] == 'i');
    assert("ambiguous"@[0] == 'a');
}

// -- Contributions -----------------------------------------------------------------

proof fn evidence_list_reads_back(
    entries: Seq<EvidenceModel>,
    inherited: Option<(Seq<char>, Seq<char>)>,
    at: int,
)
    requires
        0 <= at <= entries.len(),
        forall|i: int| 0 <= i < entries.len() ==> sound_evidence(#[trigger] entries[i]),
    ensures
        evidence_list(
            Seq::new(entries.len(), |i: int| written_evidence(entries[i], inherited)),
            inherited,
            at,
            entries.take(at),
        ) == Ok::<_, ConversionErrorModel>(entries),
    decreases entries.len() - at,
{
    if at < entries.len() {
        evidence_reads_back(entries[at], inherited);
        assert(entries.take(at).push(entries[at]) =~= entries.take(at + 1));
        evidence_list_reads_back(entries, inherited, at + 1);
    } else {
        assert(entries.take(at) =~= entries);
    }
}

/// A source unit that is written reads back as itself.
pub proof fn unit_reads_back(unit: SourceUnitId)
    ensures
        unit_from(written_unit(unit)) == Ok::<_, ConversionErrorModel>(unit),
{
    unit.is_found();
    unit.length();
    unit.text_reads_back(unit);
    if unit.is_query() {
        assert(unit@ =~= Seq::new(16, |i: int| 0u8));
    }
}

/// A contribution that is written reads back as itself.
pub proof fn contribution_reads_back(entry: ContributionModel)
    requires
        sound_contribution(entry),
    ensures
        contribution_from(written_contribution(entry)) == Ok::<_, ConversionErrorModel>(entry),
{
    let given = owner_supplies(entry.owner);
    unit_reads_back(entry.source_unit);
    assert(entry.evidence.take(0) =~= Seq::empty());
    evidence_list_reads_back(entry.evidence, given, 0);
    assert(written_contribution(entry).evidence =~= Seq::new(
        entry.evidence.len(),
        |i: int| written_evidence(entry.evidence[i], given),
    ));
    assert(supplied(written_owner(entry.owner)) == given);
    assert(owner_from(written_owner(entry.owner)) == Ok::<_, ConversionErrorModel>(entry.owner));
}

proof fn contributions_read_back(entries: Seq<ContributionModel>, at: int)
    requires
        0 <= at <= entries.len(),
        forall|i: int| 0 <= i < entries.len() ==> sound_contribution(#[trigger] entries[i]),
    ensures
        contributions_from(written_contributions(entries), at, entries.take(at)) == Ok::<
            _,
            ConversionErrorModel,
        >(entries),
    decreases entries.len() - at,
{
    if at < entries.len() {
        contribution_reads_back(entries[at]);
        assert(written_contributions(entries)[at] == written_contribution(entries[at]));
        assert(entries.take(at).push(entries[at]) =~= entries.take(at + 1));
        contributions_read_back(entries, at + 1);
    } else {
        assert(entries.take(at) =~= entries);
    }
}

// -- Links and schemas -------------------------------------------------------------

proof fn links_read_back(links: Seq<LinkModel>, at: int)
    requires
        0 <= at <= links.len(),
        forall|i: int| 0 <= i < links.len() ==> sound_link(#[trigger] links[i]),
    ensures
        links_from(
            Seq::new(links.len(), |i: int| written_link(links[i])),
            at,
            links.take(at),
        ) == Ok::<_, ConversionErrorModel>(links),
    decreases links.len() - at,
{
    if at < links.len() {
        assert(link_from(written_link(links[at])) == Ok::<_, ConversionErrorModel>(links[at]));
        assert(links.take(at).push(links[at]) =~= links.take(at + 1));
        links_read_back(links, at + 1);
    } else {
        assert(links.take(at) =~= links);
    }
}

proof fn fields_read_back(fields: Seq<SchemaFieldModel>, at: int)
    requires
        0 <= at <= fields.len(),
        forall|i: int| 0 <= i < fields.len() ==> name_fault((#[trigger] fields[i]).key) is None,
    ensures
        fields_from(
            Seq::new(fields.len(), |i: int| written_schema_field(fields[i])),
            at,
            fields.take(at),
        ) == Ok::<_, ConversionErrorModel>(fields),
    decreases fields.len() - at,
{
    if at < fields.len() {
        assert(fields.take(at).push(fields[at]) =~= fields.take(at + 1));
        fields_read_back(fields, at + 1);
    } else {
        assert(fields.take(at) =~= fields);
    }
}

/// A schema that is written reads back as itself.
pub proof fn schema_reads_back(schema: SchemaModel)
    requires
        sound_schema(schema),
    ensures
        schema_from(written_schema(schema)) == Ok::<_, ConversionErrorModel>(schema),
{
    assert(schema.fields.take(0) =~= Seq::empty());
    fields_read_back(schema.fields, 0);
    assert(written_schema(schema).fields =~= Seq::new(
        schema.fields.len(),
        |i: int| written_schema_field(schema.fields[i]),
    ));
    sorted_is_stable::<SchemaField>(schema.fields);
}

proof fn schemas_read_back(schemas: Seq<SchemaModel>, at: int)
    requires
        0 <= at <= schemas.len(),
        forall|i: int| 0 <= i < schemas.len() ==> sound_schema(#[trigger] schemas[i]),
    ensures
        schemas_from(
            Seq::new(schemas.len(), |i: int| written_schema(schemas[i])),
            at,
            schemas.take(at),
        ) == Ok::<_, ConversionErrorModel>(schemas),
    decreases schemas.len() - at,
{
    if at < schemas.len() {
        schema_reads_back(schemas[at]);
        assert(schemas.take(at).push(schemas[at]) =~= schemas.take(at + 1));
        schemas_read_back(schemas, at + 1);
    } else {
        assert(schemas.take(at) =~= schemas);
    }
}

// -- Records -----------------------------------------------------------------------

/// The declaration names of nodes.
pub open spec fn names_of(nodes: Seq<NodeModel>) -> Seq<(Seq<char>, LocalNodeId)> {
    Seq::new(nodes.len(), |i: int| (name_of(nodes[i].id), nodes[i].id))
}

proof fn nodes_read_back(
    nodes: Seq<NodeModel>,
    declared: Seq<Seq<char>>,
    count: int,
    minted: Seq<Seq<u8>>,
)
    requires
        0 <= count <= nodes.len(),
        forall|i: int| 0 <= i < nodes.len() ==> sound_node(#[trigger] nodes[i]),
    ensures
        nodes_built(
            Seq::new(nodes.len(), |i: int| written_node(nodes[i], declared)),
            count,
            minted,
        ) == Ok::<_, ConversionErrorModel>(
            Build {
                nodes: nodes.take(count),
                names: names_of(nodes).take(count),
                edges: Seq::empty(),
                used: 0,
            },
        ),
    decreases count,
{
    let written = Seq::new(nodes.len(), |i: int| written_node(nodes[i], declared));
    if count == 0 {
        assert(nodes.take(0) =~= Seq::empty());
        assert(names_of(nodes).take(0) =~= Seq::empty());
    } else {
        nodes_read_back(nodes, declared, count - 1, minted);
        let node = nodes[count - 1];
        let declaration = written[count - 1];
        assert(declaration == written_node(node, declared));
        parts_read_back(
            node.id.text(),
            node.properties,
            extra_part(node.labels, declared),
            node.contributions,
        );
        node.id.is_found();
        node.id.text_reads_back(node.id);
        labels_read_back(node.labels, declared, SourceRange::at_origin());
        assert(node.contributions.take(0) =~= Seq::empty());
        contributions_read_back(node.contributions, 0);
        sorted_is_stable::<(PropertyKey, PropertyValue)>(node.properties);
        sorted_is_stable::<Contribution>(node.contributions);
        assert(nodes.take(count - 1).push(node) =~= nodes.take(count));
        assert(names_of(nodes).take(count - 1).push((name_of(node.id), node.id)) =~= names_of(
            nodes,
        ).take(count));
    }
}

/// A name leads to the node it was made of.
pub proof fn name_leads_back(nodes: Seq<NodeModel>, count: int, id: LocalNodeId, at: int)
    requires
        0 <= at < count <= nodes.len(),
        nodes[at].id == id,
    ensures
        find_name(names_of(nodes), count, name_of(id)) == Some(id),
    decreases count,
{
    let last = nodes[count - 1].id;
    assert(names_of(nodes)[count - 1] == (name_of(last), last));
    if name_of(last) == name_of(id) {
        generated_names_differ(last, id);
    } else {
        name_leads_back(nodes, count - 1, id, at);
    }
}

proof fn endpoint_reads_back(
    reference: ReferenceModel,
    links: Seq<LinkModel>,
    nodes: Seq<NodeModel>,
    build: Build,
    minted: Seq<Seq<u8>>,
)
    requires
        names_one_of(reference, nodes),
        build.names == names_of(nodes),
    ensures
        endpoint_added(build, written_endpoint(reference, links), minted) == Ok::<
            _,
            ConversionErrorModel,
        >((reference, build)),
{
    let id = reference->Local_0;
    let at = choose|i: int| 0 <= i < nodes.len() && (#[trigger] nodes[i]).id == id;
    name_leads_back(nodes, nodes.len() as int, id, at);
}

proof fn edges_read_back(graph: GraphModel, count: int, minted: Seq<Seq<u8>>)
    requires
        0 <= count <= graph.edges.len(),
        sound_graph(graph),
    ensures
        edges_built(document_of(graph), count, minted) == Ok::<_, ConversionErrorModel>(
            Build {
                nodes: graph.nodes,
                names: names_of(graph.nodes),
                edges: graph.edges.take(count),
                used: 0,
            },
        ),
    decreases count,
{
    let file = document_of(graph);
    if count == 0 {
        let declared = declared_names(graph.schemas);
        nodes_read_back(graph.nodes, declared, graph.nodes.len() as int, minted);
        assert(file.nodes =~= Seq::new(
            graph.nodes.len(),
            |i: int| written_node(graph.nodes[i], declared),
        ));
        assert(graph.nodes.take(graph.nodes.len() as int) =~= graph.nodes);
        assert(names_of(graph.nodes).take(graph.nodes.len() as int) =~= names_of(graph.nodes));
        assert(graph.edges.take(0) =~= Seq::empty());
    } else {
        edges_read_back(graph, count - 1, minted);
        let edge = graph.edges[count - 1];
        let build = edges_built(file, count - 1, minted)->Ok_0;
        assert(file.edges[count - 1] == written_edge(edge, graph.links));
        parts_read_back(edge.id.text(), edge.properties, Seq::empty(), edge.contributions);
        edge.id.is_found();
        edge.id.text_reads_back(edge.id);
        endpoint_reads_back(edge.source, graph.links, graph.nodes, build, minted);
        endpoint_reads_back(edge.target, graph.links, graph.nodes, build, minted);
        assert(edge.contributions.take(0) =~= Seq::empty());
        contributions_read_back(edge.contributions, 0);
        sorted_is_stable::<(PropertyKey, PropertyValue)>(edge.properties);
        sorted_is_stable::<Contribution>(edge.contributions);
        assert(graph.edges.take(count - 1).push(edge) =~= graph.edges.take(count));
    }
}

/// A graph that is in order reads back from its own document exactly, and no identifier is
/// minted on the way.
pub proof fn graph_reads_back(graph: GraphModel, minted: Seq<Seq<u8>>)
    requires
        sound_graph(graph),
    ensures
        graph_from(document_of(graph), minted) == Ok::<_, ConversionErrorModel>((graph, 0nat)),
{
    let file = document_of(graph);
    assert(graph.links.take(0) =~= Seq::empty());
    links_read_back(graph.links, 0);
    assert(file.links =~= Seq::new(graph.links.len(), |i: int| written_link(graph.links[i])));
    assert(graph.schemas.take(0) =~= Seq::empty());
    schemas_read_back(graph.schemas, 0);
    assert(file.schemas =~= Seq::new(
        graph.schemas.len(),
        |i: int| written_schema(graph.schemas[i]),
    ));
    edges_read_back(graph, graph.edges.len() as int, minted);
    assert(graph.edges.take(graph.edges.len() as int) =~= graph.edges);
    sorted_is_stable::<Node>(graph.nodes);
    sorted_is_stable::<Edge>(graph.edges);
    sorted_is_stable::<Schema>(graph.schemas);
    sorted_is_stable::<Link>(graph.links);
}

// -- Conversion puts a graph in order ----------------------------------------------

/// What holds of all items holds of all sorted ones.
proof fn sorted_keeps<T: Ordered>(items: Seq<T::V>, holds: spec_fn(T::V) -> bool)
    requires
        forall|i: int| 0 <= i < items.len() ==> holds(#[trigger] items[i]),
    ensures
        forall|i: int| 0 <= i < items.len() ==> holds(#[trigger] sorted::<T>(items)[i]),
        sorted::<T>(items).len() == items.len(),
{
    let all = sorted::<T>(items);
    sorted_length::<T>(items);
    assert forall|i: int| 0 <= i < items.len() implies holds(#[trigger] all[i]) by {
        assert(all.contains(all[i]));
        sorted_contains::<T>(items, all[i]);
        let j = choose|j: int| 0 <= j < items.len() && items[j] == all[i];
        assert(holds(items[j]));
    }
}

proof fn converted_scalar_is_sound(value: ValueModel, range: SourceRange)
    ensures
        scalar_from(value, range) matches Ok(found) ==> sound_scalar(found),
{
}

proof fn converted_scalars_are_sound(
    items: Seq<Spanned<ValueModel>>,
    at: int,
    before: Seq<ScalarModel>,
)
    requires
        forall|i: int| 0 <= i < before.len() ==> sound_scalar(#[trigger] before[i]),
    ensures
        scalars_from(items, at, before) matches Ok(found) ==> forall|i: int|
            0 <= i < found.len() ==> sound_scalar(#[trigger] found[i]),
    decreases items.len() - at,
{
    if 0 <= at < items.len() {
        converted_scalar_is_sound(items[at].value, items[at].range);
        if let Ok(found) = scalar_from(items[at].value, items[at].range) {
            converted_scalars_are_sound(items, at + 1, before.push(found));
        }
    }
}

proof fn converted_value_is_sound(value: Spanned<ValueModel>)
    ensures
        property_from(value) matches Ok(found) ==> sound_value(found),
{
    match value.value {
        ValueModel::List(items) => {
            converted_scalars_are_sound(items, 0, Seq::empty());
        },
        _ => {
            converted_scalar_is_sound(value.value, value.range);
        },
    }
}

proof fn converted_parts_are_sound(properties: Seq<WrittenProperty>, at: int, parts: Parts)
    requires
        forall|i: int|
            0 <= i < parts.properties.len() ==> sound_property(#[trigger] parts.properties[i]),
    ensures
        parts_from(properties, at, parts) matches Ok(found) ==> forall|i: int|
            0 <= i < found.properties.len() ==> sound_property(#[trigger] found.properties[i]),
    decreases properties.len() - at,
{
    if 0 <= at < properties.len() {
        converted_value_is_sound(properties[at].value);
        if let Ok(next) = part_added(parts, properties[at]) {
            converted_parts_are_sound(properties, at + 1, next);
        }
    }
}

/// Whether labels are names, each there once.
spec fn good_labels(labels: Seq<Seq<char>>) -> bool {
    &&& forall|i: int| 0 <= i < labels.len() ==> name_fault(#[trigger] labels[i]) is None
    &&& labels.no_duplicates()
}

proof fn converted_names_are_good(named: Seq<Spanned<Seq<char>>>, at: int, before: Seq<Seq<char>>)
    requires
        good_labels(before),
    ensures
        named_labels(named, at, before) matches Ok(found) ==> good_labels(found),
    decreases named.len() - at,
{
    if 0 <= at < named.len() && name_fault(named[at].value) is None {
        converted_names_are_good(named, at + 1, with_new(before, named[at].value));
    }
}

proof fn converted_extra_are_good(
    extra: Seq<Seq<char>>,
    at: int,
    range: SourceRange,
    before: Seq<Seq<char>>,
)
    requires
        good_labels(before),
    ensures
        extra_labels(extra, at, range, before) matches Ok(found) ==> good_labels(found),
    decreases extra.len() - at,
{
    if 0 <= at < extra.len() && name_fault(extra[at]) is None {
        converted_extra_are_good(extra, at + 1, range, with_new(before, extra[at]));
    }
}

proof fn converted_labels_are_sound(
    named: Seq<Spanned<Seq<char>>>,
    extra: Seq<Seq<char>>,
    range: SourceRange,
)
    ensures
        labels_from(named, extra, range) matches Ok(found) ==> sound_labels(
            sorted::<Label>(found),
        ),
{
    converted_names_are_good(named, 0, Seq::empty());
    if let Ok(first) = named_labels(named, 0, Seq::empty()) {
        converted_extra_are_good(extra, 0, range, first);
    }
    if let Ok(found) = labels_from(named, extra, range) {
        let all = sorted::<Label>(found);
        sorted_keeps::<Label>(found, |label: Seq<char>| name_fault(label) is None);
        sorted_is_in_order::<Label>(found);
        sorted_keeps_items::<Label>(found);
        found.lemma_multiset_has_no_duplicates();
        all.lemma_multiset_has_no_duplicates_conv();
        assert forall|i: int| 0 <= i < all.len() implies name_fault(#[trigger] all[i]) is None by {
            let holds = |label: Seq<char>| name_fault(label) is None;
            assert(holds(all[i]));
        }
    }
}

proof fn converted_evidence_is_sound(
    block: EvidenceBlockModel,
    inherited: Option<(Seq<char>, Seq<char>)>,
)
    ensures
        evidence_from(block, inherited) matches Ok(found) ==> sound_evidence(found),
{
    broadcast use {SourceRange::made_of_ends, Score::bits_of_score};

}

proof fn converted_list_is_sound(
    blocks: Seq<EvidenceBlockModel>,
    inherited: Option<(Seq<char>, Seq<char>)>,
    at: int,
    before: Seq<EvidenceModel>,
)
    requires
        forall|i: int| 0 <= i < before.len() ==> sound_evidence(#[trigger] before[i]),
    ensures
        evidence_list(blocks, inherited, at, before) matches Ok(found) ==> forall|i: int|
            0 <= i < found.len() ==> sound_evidence(#[trigger] found[i]),
    decreases blocks.len() - at,
{
    if 0 <= at < blocks.len() {
        converted_evidence_is_sound(blocks[at], inherited);
        if let Ok(found) = evidence_from(blocks[at], inherited) {
            converted_list_is_sound(blocks, inherited, at + 1, before.push(found));
        }
    }
}

proof fn converted_contributions_are_sound(
    blocks: Seq<ContributionBlockModel>,
    at: int,
    before: Seq<ContributionModel>,
)
    requires
        forall|i: int| 0 <= i < before.len() ==> sound_contribution(#[trigger] before[i]),
    ensures
        contributions_from(blocks, at, before) matches Ok(found) ==> forall|i: int|
            0 <= i < found.len() ==> sound_contribution(#[trigger] found[i]),
    decreases blocks.len() - at,
{
    if 0 <= at < blocks.len() {
        converted_list_is_sound(blocks[at].evidence, supplied(blocks[at].owner), 0, Seq::empty());
        if let Ok(found) = contribution_from(blocks[at]) {
            assert(sound_owner(found.owner));
            converted_contributions_are_sound(blocks, at + 1, before.push(found));
        }
    }
}

proof fn properties_become_sound(properties: Seq<(Seq<char>, PropertyModel)>)
    requires
        forall|i: int| 0 <= i < properties.len() ==> sound_property(#[trigger] properties[i]),
    ensures
        sound_properties(sorted::<(PropertyKey, PropertyValue)>(properties)),
{
    let holds = |property: (Seq<char>, PropertyModel)| sound_property(property);
    sorted_keeps::<(PropertyKey, PropertyValue)>(properties, holds);
    sorted_is_in_order::<(PropertyKey, PropertyValue)>(properties);
    let all = sorted::<(PropertyKey, PropertyValue)>(properties);
    assert forall|i: int| 0 <= i < all.len() implies sound_property(#[trigger] all[i]) by {
        assert(holds(all[i]));
    }
}

proof fn contributions_become_sound(entries: Seq<ContributionModel>)
    requires
        forall|i: int| 0 <= i < entries.len() ==> sound_contribution(#[trigger] entries[i]),
    ensures
        sound_contributions(sorted::<Contribution>(entries)),
{
    let holds = |entry: ContributionModel| sound_contribution(entry);
    sorted_keeps::<Contribution>(entries, holds);
    sorted_is_in_order::<Contribution>(entries);
    let all = sorted::<Contribution>(entries);
    assert forall|i: int| 0 <= i < all.len() implies sound_contribution(#[trigger] all[i]) by {
        assert(holds(all[i]));
    }
}

/// Whether what has been built so far is sound: every name leads to a node, and every edge
/// joins two of them.
spec fn sound_build(build: Build) -> bool {
    &&& forall|i: int| 0 <= i < build.nodes.len() ==> sound_node(#[trigger] build.nodes[i])
    &&& forall|i: int|
        0 <= i < build.names.len() ==> names_one_of(
            ReferenceModel::Local((#[trigger] build.names[i]).1),
            build.nodes,
        )
    &&& forall|i: int|
        0 <= i < build.edges.len() ==> sound_edge(#[trigger] build.edges[i], build.nodes)
}

proof fn still_names(reference: ReferenceModel, nodes: Seq<NodeModel>, node: NodeModel)
    requires
        names_one_of(reference, nodes),
    ensures
        names_one_of(reference, nodes.push(node)),
{
    let id = reference->Local_0;
    let at = choose|i: int| 0 <= i < nodes.len() && (#[trigger] nodes[i]).id == id;
    assert(nodes.push(node)[at].id == id);
}

proof fn one_more_node(build: Build, node: NodeModel, used: nat)
    requires
        sound_build(build),
        sound_node(node),
    ensures
        sound_build(Build { nodes: build.nodes.push(node), used, ..build }),
        names_one_of(ReferenceModel::Local(node.id), build.nodes.push(node)),
{
    let nodes = build.nodes.push(node);
    let next = Build { nodes, used, ..build };
    assert(nodes[build.nodes.len() as int].id == node.id);
    assert forall|i: int| 0 <= i < next.names.len() implies names_one_of(
        ReferenceModel::Local((#[trigger] next.names[i]).1),
        nodes,
    ) by {
        still_names(ReferenceModel::Local(build.names[i].1), build.nodes, node);
    }
    assert forall|i: int| 0 <= i < next.edges.len() implies sound_edge(
        #[trigger] next.edges[i],
        nodes,
    ) by {
        assert(sound_edge(build.edges[i], build.nodes));
        still_names(build.edges[i].source, build.nodes, node);
        still_names(build.edges[i].target, build.nodes, node);
    }
}

proof fn node_added_is_sound(
    build: Build,
    declaration: NodeDeclarationModel,
    minted: Seq<Seq<u8>>,
)
    requires
        sound_build(build),
    ensures
        node_added(build, declaration, minted) matches Ok(next) ==> sound_build(next),
{
    if let Ok(next) = node_added(build, declaration, minted) {
        let parts = parts_of(declaration.record)->Ok_0;
        converted_parts_are_sound(declaration.record.properties, 0, no_parts());
        converted_labels_are_sound(declaration.schemas, parts.extra, declaration.name.range);
        converted_contributions_are_sound(declaration.record.contributions, 0, Seq::empty());
        let owned = contributions_from(
            declaration.record.contributions,
            0,
            Seq::empty(),
        )->Ok_0;
        properties_become_sound(parts.properties);
        contributions_become_sound(owned);
        let node = next.nodes.last();
        assert(sound_node(node));
        one_more_node(build, node, next.used);
        let grown = Build { nodes: build.nodes.push(node), used: next.used, ..build };
        assert(next.nodes == grown.nodes);
        assert forall|i: int| 0 <= i < next.names.len() implies names_one_of(
            ReferenceModel::Local((#[trigger] next.names[i]).1),
            next.nodes,
        ) by {
            if i < build.names.len() {
                assert(next.names[i] == grown.names[i]);
            }
        }
        assert forall|i: int| 0 <= i < next.edges.len() implies sound_edge(
            #[trigger] next.edges[i],
            next.nodes,
        ) by {
            assert(sound_edge(grown.edges[i], grown.nodes));
        }
    }
}

proof fn nodes_built_are_sound(
    declarations: Seq<NodeDeclarationModel>,
    count: int,
    minted: Seq<Seq<u8>>,
)
    ensures
        nodes_built(declarations, count, minted) matches Ok(build) ==> sound_build(build),
    decreases count,
{
    if count > 0 {
        nodes_built_are_sound(declarations, count - 1, minted);
        if let Ok(build) = nodes_built(declarations, count - 1, minted) {
            node_added_is_sound(build, declarations[count - 1], minted);
        }
    }
}

proof fn found_names_are_nodes(build: Build, count: int, name: Seq<char>)
    requires
        sound_build(build),
        0 <= count <= build.names.len(),
    ensures
        find_name(build.names, count, name) matches Some(id) ==> names_one_of(
            ReferenceModel::Local(id),
            build.nodes,
        ),
    decreases count,
{
    if count > 0 {
        assert(names_one_of(ReferenceModel::Local(build.names[count - 1].1), build.nodes));
        found_names_are_nodes(build, count - 1, name);
    }
}

proof fn placeholder_is_sound(id: LocalNodeId)
    ensures
        sound_node(placeholder(id)),
{
    placeholder_is_a_name();
    crate::name::ascii_names_are_names("Placeholder"@);
    let labels = placeholder(id).labels;
    assert(labels.len() == 1 && labels[0] == "Placeholder"@);
}

proof fn endpoint_added_is_sound(build: Build, endpoint: EndpointModel, minted: Seq<Seq<u8>>)
    requires
        sound_build(build),
    ensures
        endpoint_added(build, endpoint, minted) matches Ok((reference, next)) ==> sound_build(next)
            && names_one_of(reference, next.nodes) && next.edges == build.edges && (forall|
            other: ReferenceModel,
        | #[trigger]
            names_one_of(other, build.nodes) ==> names_one_of(other, next.nodes)),
{
    if let EndpointModel::Local(name) = endpoint {
        found_names_are_nodes(build, build.names.len() as int, name.value);
        let id = LocalNodeId::with_bytes(minted[build.used as int]);
        placeholder_is_sound(id);
        one_more_node(build, placeholder(id), build.used + 1);
        assert forall|other: ReferenceModel| #[trigger]
            names_one_of(other, build.nodes) implies names_one_of(
            other,
            build.nodes.push(placeholder(id)),
        ) by {
            still_names(other, build.nodes, placeholder(id));
        }
    }
}

proof fn edge_added_is_sound(
    build: Build,
    declaration: EdgeDeclarationModel,
    minted: Seq<Seq<u8>>,
)
    requires
        sound_build(build),
    ensures
        edge_added(build, declaration, minted) matches Ok(next) ==> sound_build(next),
{
    if let Ok(next) = edge_added(build, declaration, minted) {
        let parts = parts_of(declaration.record)->Ok_0;
        converted_parts_are_sound(declaration.record.properties, 0, no_parts());
        converted_contributions_are_sound(declaration.record.contributions, 0, Seq::empty());
        let owned = contributions_from(
            declaration.record.contributions,
            0,
            Seq::empty(),
        )->Ok_0;
        properties_become_sound(parts.properties);
        contributions_become_sound(owned);
        let (id, used) = edge_id(
            parts.id,
            declaration.relation.range,
            minted,
            build.used,
        )->Ok_0;
        let first = Build { used, ..build };
        endpoint_added_is_sound(first, declaration.source, minted);
        let (source, second) = endpoint_added(first, declaration.source, minted)->Ok_0;
        endpoint_added_is_sound(second, declaration.target, minted);
        let (target, third) = endpoint_added(second, declaration.target, minted)->Ok_0;
        assert(names_one_of(source, third.nodes));
        assert forall|i: int| 0 <= i < next.edges.len() implies sound_edge(
            #[trigger] next.edges[i],
            next.nodes,
        ) by {
            if i < third.edges.len() {
                assert(next.edges[i] == third.edges[i]);
            }
        }
    }
}

proof fn edges_built_are_sound(file: SourceFileModel, count: int, minted: Seq<Seq<u8>>)
    ensures
        edges_built(file, count, minted) matches Ok(build) ==> sound_build(build),
    decreases count,
{
    if count > 0 {
        edges_built_are_sound(file, count - 1, minted);
        if let Ok(build) = edges_built(file, count - 1, minted) {
            edge_added_is_sound(build, file.edges[count - 1], minted);
        }
    } else {
        nodes_built_are_sound(file.nodes, file.nodes.len() as int, minted);
    }
}

proof fn converted_links_are_sound(
    links: Seq<LinkDeclarationModel>,
    at: int,
    before: Seq<LinkModel>,
)
    requires
        forall|i: int| 0 <= i < before.len() ==> sound_link(#[trigger] before[i]),
    ensures
        links_from(links, at, before) matches Ok(found) ==> forall|i: int|
            0 <= i < found.len() ==> sound_link(#[trigger] found[i]),
    decreases links.len() - at,
{
    if 0 <= at < links.len() {
        if let Ok(found) = link_from(links[at]) {
            assert(sound_link(found));
            converted_links_are_sound(links, at + 1, before.push(found));
        }
    }
}

proof fn converted_fields_are_named(
    fields: Seq<super::SchemaFieldModel>,
    at: int,
    before: Seq<SchemaFieldModel>,
)
    requires
        forall|i: int| 0 <= i < before.len() ==> name_fault((#[trigger] before[i]).key) is None,
    ensures
        fields_from(fields, at, before) matches Ok(found) ==> forall|i: int|
            0 <= i < found.len() ==> name_fault((#[trigger] found[i]).key) is None,
    decreases fields.len() - at,
{
    if 0 <= at < fields.len() && name_fault(fields[at].key.value) is None {
        let field = SchemaFieldModel {
            key: fields[at].key.value,
            field_type: fields[at].field_type.value,
            required: !fields[at].optional,
        };
        converted_fields_are_named(fields, at + 1, before.push(field));
    }
}

proof fn converted_schema_is_sound(schema: SchemaDeclarationModel)
    ensures
        schema_from(schema) matches Ok(found) ==> sound_schema(found),
{
    converted_fields_are_named(schema.fields, 0, Seq::empty());
    if let Ok(fields) = fields_from(schema.fields, 0, Seq::empty()) {
        let holds = |field: SchemaFieldModel| name_fault(field.key) is None;
        sorted_keeps::<SchemaField>(fields, holds);
        sorted_is_in_order::<SchemaField>(fields);
        let all = sorted::<SchemaField>(fields);
        assert forall|i: int| 0 <= i < all.len() implies name_fault((#[trigger] all[i]).key)
            is None by {
            assert(holds(all[i]));
        }
    }
}

proof fn converted_schemas_are_sound(
    schemas: Seq<SchemaDeclarationModel>,
    at: int,
    before: Seq<SchemaModel>,
)
    requires
        forall|i: int| 0 <= i < before.len() ==> sound_schema(#[trigger] before[i]),
    ensures
        schemas_from(schemas, at, before) matches Ok(found) ==> forall|i: int|
            0 <= i < found.len() ==> sound_schema(#[trigger] found[i]),
    decreases schemas.len() - at,
{
    if 0 <= at < schemas.len() {
        converted_schema_is_sound(schemas[at]);
        if let Ok(found) = schema_from(schemas[at]) {
            converted_schemas_are_sound(schemas, at + 1, before.push(found));
        }
    }
}

/// A graph that a document was converted to is in order, whatever the document and whatever
/// identifiers were minted. In particular no edge is without an endpoint.
pub proof fn converted_graph_is_sound(file: SourceFileModel, minted: Seq<Seq<u8>>)
    ensures
        graph_from(file, minted) matches Ok((graph, _)) ==> sound_graph(graph),
{
    if let Ok((graph, used)) = graph_from(file, minted) {
        converted_links_are_sound(file.links, 0, Seq::empty());
        let links = links_from(file.links, 0, Seq::empty())->Ok_0;
        let link_holds = |link: LinkModel| sound_link(link);
        sorted_keeps::<Link>(links, link_holds);
        sorted_is_in_order::<Link>(links);
        assert forall|i: int| 0 <= i < graph.links.len() implies sound_link(
            #[trigger] graph.links[i],
        ) by {
            assert(link_holds(graph.links[i]));
        }
        converted_schemas_are_sound(file.schemas, 0, Seq::empty());
        let schemas = schemas_from(file.schemas, 0, Seq::empty())->Ok_0;
        let schema_holds = |schema: SchemaModel| sound_schema(schema);
        sorted_keeps::<Schema>(schemas, schema_holds);
        sorted_is_in_order::<Schema>(schemas);
        assert forall|i: int| 0 <= i < graph.schemas.len() implies sound_schema(
            #[trigger] graph.schemas[i],
        ) by {
            assert(schema_holds(graph.schemas[i]));
        }
        edges_built_are_sound(file, file.edges.len() as int, minted);
        let build = edges_built(file, file.edges.len() as int, minted)->Ok_0;
        let node_holds = |node: NodeModel| sound_node(node);
        sorted_keeps::<Node>(build.nodes, node_holds);
        sorted_is_in_order::<Node>(build.nodes);
        assert forall|i: int| 0 <= i < graph.nodes.len() implies sound_node(
            #[trigger] graph.nodes[i],
        ) by {
            assert(node_holds(graph.nodes[i]));
        }
        assert forall|other: ReferenceModel| #[trigger]
            names_one_of(other, build.nodes) implies names_one_of(other, graph.nodes) by {
            let id = other->Local_0;
            let at = choose|i: int|
                0 <= i < build.nodes.len() && (#[trigger] build.nodes[i]).id == id;
            assert(build.nodes.contains(build.nodes[at]));
            sorted_contains::<Node>(build.nodes, build.nodes[at]);
            let place = choose|i: int|
                0 <= i < graph.nodes.len() && graph.nodes[i] == build.nodes[at];
            assert(graph.nodes[place].id == id);
        }
        let edge_holds = |edge: EdgeModel| sound_edge(edge, graph.nodes);
        assert forall|i: int| 0 <= i < build.edges.len() implies edge_holds(
            #[trigger] build.edges[i],
        ) by {
            assert(sound_edge(build.edges[i], build.nodes));
        }
        sorted_keeps::<Edge>(build.edges, edge_holds);
        sorted_is_in_order::<Edge>(build.edges);
        assert forall|i: int| 0 <= i < graph.edges.len() implies sound_edge(
            #[trigger] graph.edges[i],
            graph.nodes,
        ) by {
            assert(edge_holds(graph.edges[i]));
        }
    }
}

/// The document of a graph that is in order leaves no identifier to be minted, so that turning
/// it back never runs out of them.
pub proof fn exported_document_leaves_nothing_open(graph: GraphModel)
    requires
        sound_graph(graph),
    ensures
        wanted(document_of(graph)).len() == 0,
        !leaves_open(document_of(graph)),
{
    graph_reads_back(graph, Seq::empty());
    conversion_uses_what_is_wanted(document_of(graph), Seq::empty());
    open_documents_want(document_of(graph));
}

/// Conversion is stable after one pass: the graph that a document was converted to reads
/// back from its own document exactly, which leaves no identifier to be minted.
pub proof fn conversion_is_stable(
    file: SourceFileModel,
    minted: Seq<Seq<u8>>,
    more: Seq<Seq<u8>>,
)
    ensures
        graph_from(file, minted) matches Ok((graph, _)) ==> graph_from(document_of(graph), more)
            == Ok::<_, ConversionErrorModel>((graph, 0nat)) && !leaves_open(document_of(graph)),
{
    converted_graph_is_sound(file, minted);
    if let Ok((graph, _)) = graph_from(file, minted) {
        graph_reads_back(graph, more);
        exported_document_leaves_nothing_open(graph);
    }
}

// -- Identifiers -------------------------------------------------------------------

/// Whether issued bytes are those of identifiers: sixteen each.
pub open spec fn hold_identifiers(issued: Seq<Seq<u8>>) -> bool {
    forall|i: int| 0 <= i < issued.len() ==> (#[trigger] issued[i]).len() == 16
}

/// What is taken for a document is stated by none of its declarations of the kind it is taken
/// for, and nothing is taken twice for a kind.
pub proof fn free_identifiers_are_free(file: SourceFileModel, issued: Seq<Seq<u8>>)
    ensures
        free_of(file, issued).len() <= wanted(file).len(),
        taken_apart(file, free_of(file, issued)),
        hold_identifiers(issued) ==> hold_identifiers(free_of(file, issued)),
    decreases issued.len(),
{
    if issued.len() > 0 {
        let earlier = issued.drop_last();
        free_identifiers_are_free(file, earlier);
        let before = free_of(file, earlier);
        let all = free_of(file, issued);
        let last = issued.last();
        if hold_identifiers(issued) {
            assert forall|i: int| 0 <= i < earlier.len() implies (#[trigger] earlier[i]).len()
                == 16 by {
                assert(issued[i].len() == 16);
            }
            assert(issued[issued.len() - 1].len() == 16);
        }
        if all.len() > before.len() {
            assert forall|i: int, j: int|
                0 <= i < j < all.len() && wanted(file)[i] == wanted(file)[j] implies
                #[trigger] all[i] != #[trigger] all[j] by {
                assert(all[i] == before[i]);
                if j < before.len() {
                    assert(all[j] == before[j]);
                } else if all[i] == all[j] {
                    assert(took(file, before, wanted(file)[j], last));
                }
            }
            assert forall|i: int| 0 <= i < all.len() implies !states(
                file,
                wanted(file)[i],
                #[trigger] all[i],
            ) by {
                if i < before.len() {
                    assert(all[i] == before[i]);
                }
            }
        }
    }
}

/// Whether what is taken for a document differs from what its declarations of the same kind
/// state, and from what else is taken for that kind.
pub open spec fn taken_apart(file: SourceFileModel, free: Seq<Seq<u8>>) -> bool {
    &&& forall|i: int, j: int|
        0 <= i < j < free.len() && wanted(file)[i] == wanted(file)[j] ==> #[trigger] free[i]
            != #[trigger] free[j]
    &&& forall|i: int|
        0 <= i < free.len() ==> !states(file, wanted(file)[i], #[trigger] free[i])
}

/// Whether the first `count` nodes state an identifier with these bytes, or one of the first
/// `used` free ones has them and was for a node.
spec fn node_came_from(
    file: SourceFileModel,
    free: Seq<Seq<u8>>,
    count: int,
    used: int,
    bytes: Seq<u8>,
) -> bool {
    ||| exists|k: int|
        0 <= k < count && stated_in((#[trigger] file.nodes[k]).record, true) == Some(bytes)
    ||| exists|j: int| 0 <= j < used && wanted(file)[j] && #[trigger] free[j] == bytes
}

spec fn edge_came_from(
    file: SourceFileModel,
    free: Seq<Seq<u8>>,
    count: int,
    used: int,
    bytes: Seq<u8>,
) -> bool {
    ||| exists|k: int|
        0 <= k < count && stated_in((#[trigger] file.edges[k]).record, false) == Some(bytes)
    ||| exists|j: int| 0 <= j < used && !wanted(file)[j] && #[trigger] free[j] == bytes
}

spec fn nodes_are_apart(
    file: SourceFileModel,
    free: Seq<Seq<u8>>,
    count: int,
    build: Build,
) -> bool {
    &&& nodes_differ(build.nodes)
    &&& forall|i: int|
        0 <= i < build.nodes.len() ==> node_came_from(
            file,
            free,
            count,
            build.used as int,
            (#[trigger] build.nodes[i]).id@,
        )
}

spec fn edges_are_apart(
    file: SourceFileModel,
    free: Seq<Seq<u8>>,
    count: int,
    build: Build,
) -> bool {
    &&& edges_differ(build.edges)
    &&& forall|i: int|
        0 <= i < build.edges.len() ==> edge_came_from(
            file,
            free,
            count,
            build.used as int,
            (#[trigger] build.edges[i]).id@,
        )
}

/// Whether the identifiers that the declarations of a document state all differ.
pub open spec fn stated_apart(file: SourceFileModel) -> bool {
    &&& forall|i: int, j: int|
        0 <= i < j < file.nodes.len() && stated_in((#[trigger] file.nodes[i]).record, true) is Some
            ==> stated_in(file.nodes[i].record, true) != stated_in(
            (#[trigger] file.nodes[j]).record,
            true,
        )
    &&& forall|i: int, j: int|
        0 <= i < j < file.edges.len() && stated_in((#[trigger] file.edges[i]).record, false) is Some
            ==> stated_in(file.edges[i].record, false) != stated_in(
            (#[trigger] file.edges[j]).record,
            false,
        )
}

/// Whether bytes are new: a declaration behind the first `count` states them, or they are
/// those of the free identifier at `used`.
spec fn is_new_node(
    file: SourceFileModel,
    free: Seq<Seq<u8>>,
    count: int,
    used: int,
    bytes: Seq<u8>,
) -> bool {
    ||| count < file.nodes.len() && stated_in(file.nodes[count].record, true) == Some(bytes)
    ||| 0 <= used < free.len() && wanted(file)[used] && free[used] == bytes
}

spec fn is_new_edge(
    file: SourceFileModel,
    free: Seq<Seq<u8>>,
    count: int,
    used: int,
    bytes: Seq<u8>,
) -> bool {
    ||| count < file.edges.len() && stated_in(file.edges[count].record, false) == Some(bytes)
    ||| 0 <= used < free.len() && !wanted(file)[used] && free[used] == bytes
}

spec fn are_free(file: SourceFileModel, free: Seq<Seq<u8>>) -> bool {
    &&& stated_apart(file)
    &&& taken_apart(file, free)
    &&& hold_identifiers(free)
}

proof fn new_node_is_apart(
    file: SourceFileModel,
    free: Seq<Seq<u8>>,
    count: int,
    used: int,
    fresh: Seq<u8>,
    bytes: Seq<u8>,
)
    requires
        are_free(file, free),
        0 <= count <= file.nodes.len(),
        used <= free.len(),
        is_new_node(file, free, count, used, fresh),
        node_came_from(file, free, count, used, bytes),
    ensures
        fresh != bytes,
{
    if fresh == bytes {
        if exists|k: int|
            0 <= k < count && stated_in((#[trigger] file.nodes[k]).record, true) == Some(bytes) {
            let k = choose|k: int|
                0 <= k < count && stated_in((#[trigger] file.nodes[k]).record, true) == Some(bytes);
            assert(states(file, true, bytes));
            if count < file.nodes.len() {
                assert(stated_in(file.nodes[k].record, true) != stated_in(
                    file.nodes[count].record,
                    true,
                ));
            }
        } else {
            let j = choose|j: int|
                0 <= j < used && wanted(file)[j] && #[trigger] free[j] == bytes;
            assert(!states(file, true, free[j]));
            if count < file.nodes.len() && stated_in(file.nodes[count].record, true) == Some(bytes) {
                assert(states(file, true, bytes));
            }
        }
    }
}

proof fn new_edge_is_apart(
    file: SourceFileModel,
    free: Seq<Seq<u8>>,
    count: int,
    used: int,
    fresh: Seq<u8>,
    bytes: Seq<u8>,
)
    requires
        are_free(file, free),
        0 <= count <= file.edges.len(),
        used <= free.len(),
        is_new_edge(file, free, count, used, fresh),
        edge_came_from(file, free, count, used, bytes),
    ensures
        fresh != bytes,
{
    if fresh == bytes {
        if exists|k: int|
            0 <= k < count && stated_in((#[trigger] file.edges[k]).record, false) == Some(bytes) {
            let k = choose|k: int|
                0 <= k < count && stated_in((#[trigger] file.edges[k]).record, false) == Some(bytes);
            assert(states(file, false, bytes));
            if count < file.edges.len() {
                assert(stated_in(file.edges[k].record, false) != stated_in(
                    file.edges[count].record,
                    false,
                ));
            }
        } else {
            let j = choose|j: int|
                0 <= j < used && !wanted(file)[j] && #[trigger] free[j] == bytes;
            assert(!states(file, false, free[j]));
            if count < file.edges.len() && stated_in(file.edges[count].record, false) == Some(bytes) {
                assert(states(file, false, bytes));
            }
        }
    }
}

/// A new node keeps the nodes apart.
proof fn node_keeps_apart(
    file: SourceFileModel,
    free: Seq<Seq<u8>>,
    count: int,
    build: Build,
    node: NodeModel,
    later: int,
    used: nat,
)
    requires
        are_free(file, free),
        0 <= count <= later <= file.nodes.len(),
        build.used <= used <= free.len(),
        nodes_are_apart(file, free, count, build),
        is_new_node(file, free, count, build.used as int, node.id@),
        node_came_from(file, free, later, used as int, node.id@),
    ensures
        nodes_are_apart(file, free, later, Build { nodes: build.nodes.push(node), used, ..build }),
{
    let nodes = build.nodes.push(node);
    assert forall|i: int, j: int| 0 <= i < j < nodes.len() implies (#[trigger] nodes[i]).id != (
    #[trigger] nodes[j]).id by {
        if j < build.nodes.len() {
            assert(nodes[i] == build.nodes[i] && nodes[j] == build.nodes[j]);
        } else {
            assert(nodes[i] == build.nodes[i]);
            new_node_is_apart(
                file,
                free,
                count,
                build.used as int,
                node.id@,
                build.nodes[i].id@,
            );
        }
    }
    assert forall|i: int| 0 <= i < nodes.len() implies node_came_from(
        file,
        free,
        later,
        used as int,
        (#[trigger] nodes[i]).id@,
    ) by {
        if i < build.nodes.len() {
            assert(nodes[i] == build.nodes[i]);
            node_came_earlier(file, free, count, build.used as int, later, used as int, nodes[i].id@);
        }
    }
}

proof fn node_came_earlier(
    file: SourceFileModel,
    free: Seq<Seq<u8>>,
    count: int,
    used: int,
    later: int,
    more: int,
    bytes: Seq<u8>,
)
    requires
        count <= later,
        used <= more,
        node_came_from(file, free, count, used, bytes),
    ensures
        node_came_from(file, free, later, more, bytes),
{
    if exists|k: int|
        0 <= k < count && stated_in((#[trigger] file.nodes[k]).record, true) == Some(bytes) {
        let k = choose|k: int|
            0 <= k < count && stated_in((#[trigger] file.nodes[k]).record, true) == Some(bytes);
        assert(0 <= k < later);
    } else {
        let j = choose|j: int|
            0 <= j < used && wanted(file)[j] && #[trigger] free[j] == bytes;
        assert(0 <= j < more);
    }
}

proof fn edge_came_earlier(
    file: SourceFileModel,
    free: Seq<Seq<u8>>,
    count: int,
    used: int,
    later: int,
    more: int,
    bytes: Seq<u8>,
)
    requires
        count <= later,
        used <= more,
        edge_came_from(file, free, count, used, bytes),
    ensures
        edge_came_from(file, free, later, more, bytes),
{
    if exists|k: int|
        0 <= k < count && stated_in((#[trigger] file.edges[k]).record, false) == Some(bytes) {
        let k = choose|k: int|
            0 <= k < count && stated_in((#[trigger] file.edges[k]).record, false) == Some(bytes);
        assert(0 <= k < later);
    } else {
        let j = choose|j: int|
            0 <= j < used && !wanted(file)[j] && #[trigger] free[j] == bytes;
        assert(0 <= j < more);
    }
}

proof fn built_nodes_are_apart(file: SourceFileModel, free: Seq<Seq<u8>>, count: int)
    requires
        are_free(file, free),
        0 <= count <= file.nodes.len(),
        nodes_built(file.nodes, count, free) matches Ok(build) ==> build.used <= free.len(),
    ensures
        nodes_built(file.nodes, count, free) matches Ok(build) ==> nodes_are_apart(
            file,
            free,
            count,
            build,
        ) && build.edges.len() == 0,
    decreases count,
{
    if count > 0 {
        if let Ok(next) = nodes_built(file.nodes, count, free) {
            let build = nodes_built(file.nodes, count - 1, free)->Ok_0;
            let declaration = file.nodes[count - 1];
            assert(build.used <= next.used);
            built_nodes_are_apart(file, free, count - 1);
            let node = next.nodes.last();
            assert(next.nodes =~= build.nodes.push(node));
            let parts = parts_of(declaration.record)->Ok_0;
            if parts.id is None {
                nodes_use_what_they_want(file.nodes, count - 1, free);
                node_is_next(file, count - 1);
                wants_rest(file, build.used as int, seq![true], 0);
                LocalNodeId::bytes_are_found(free[build.used as int]);
                assert(free[build.used as int] == node.id@);
            } else {
                assert(stated_in(file.nodes[count - 1].record, true) == Some(node.id@));
            }
            node_keeps_apart(file, free, count - 1, build, node, count, next.used);
            let grown = Build { nodes: build.nodes.push(node), used: next.used, ..build };
            assert(grown.nodes == next.nodes);
        }
    }
}

proof fn endpoint_keeps_apart(
    file: SourceFileModel,
    free: Seq<Seq<u8>>,
    build: Build,
    endpoint: EndpointModel,
)
    requires
        are_free(file, free),
        nodes_are_apart(file, free, file.nodes.len() as int, build),
        endpoint_added(build, endpoint, free) matches Ok((_, next)) && next.used <= free.len(),
        unresolved(build.names, endpoint) ==> wanted(file)[build.used as int],
    ensures
        endpoint_added(build, endpoint, free) matches Ok((_, next)) && nodes_are_apart(
            file,
            free,
            file.nodes.len() as int,
            next,
        ) && next.edges == build.edges && build.used <= next.used,
{
    let next = (endpoint_added(build, endpoint, free)->Ok_0).1;
    if next.nodes.len() > build.nodes.len() {
        LocalNodeId::bytes_are_found(free[build.used as int]);
        assert(free[build.used as int] == next.nodes.last().id@);
        let total = file.nodes.len() as int;
        node_keeps_apart(file, free, total, build, next.nodes.last(), total, next.used);
    }
}

proof fn used_nodes_stay_apart(file: SourceFileModel, free: Seq<Seq<u8>>, build: Build, used: nat)
    requires
        nodes_are_apart(file, free, file.nodes.len() as int, build),
        build.used <= used,
    ensures
        nodes_are_apart(file, free, file.nodes.len() as int, Build { used, ..build }),
{
    let total = file.nodes.len() as int;
    assert forall|i: int| 0 <= i < build.nodes.len() implies node_came_from(
        file,
        free,
        total,
        used as int,
        (#[trigger] build.nodes[i]).id@,
    ) by {
        node_came_earlier(
            file,
            free,
            total,
            build.used as int,
            total,
            used as int,
            build.nodes[i].id@,
        );
    }
}

proof fn edge_keeps_apart(
    file: SourceFileModel,
    free: Seq<Seq<u8>>,
    count: int,
    build: Build,
    edge: EdgeModel,
    next: Build,
)
    requires
        are_free(file, free),
        0 <= count < file.edges.len(),
        edges_are_apart(file, free, count, build),
        build.used <= next.used <= free.len(),
        next.edges == build.edges.push(edge),
        is_new_edge(file, free, count, build.used as int, edge.id@),
        edge_came_from(file, free, count + 1, next.used as int, edge.id@),
    ensures
        edges_are_apart(file, free, count + 1, next),
{
    let edges = next.edges;
    assert forall|i: int, j: int| 0 <= i < j < edges.len() implies (#[trigger] edges[i]).id != (
    #[trigger] edges[j]).id by {
        if j < build.edges.len() {
            assert(edges[i] == build.edges[i] && edges[j] == build.edges[j]);
        } else {
            assert(edges[i] == build.edges[i]);
            new_edge_is_apart(
                file,
                free,
                count,
                build.used as int,
                edge.id@,
                build.edges[i].id@,
            );
        }
    }
    assert forall|i: int| 0 <= i < edges.len() implies edge_came_from(
        file,
        free,
        count + 1,
        next.used as int,
        (#[trigger] edges[i]).id@,
    ) by {
        if i < build.edges.len() {
            assert(edges[i] == build.edges[i]);
            edge_came_earlier(
                file,
                free,
                count,
                build.used as int,
                count + 1,
                next.used as int,
                edges[i].id@,
            );
        }
    }
}

proof fn built_edges_are_apart(file: SourceFileModel, free: Seq<Seq<u8>>, count: int)
    requires
        are_free(file, free),
        0 <= count <= file.edges.len(),
        edges_built(file, count, free) matches Ok(build) ==> build.used <= free.len(),
    ensures
        edges_built(file, count, free) matches Ok(build) ==> nodes_are_apart(
            file,
            free,
            file.nodes.len() as int,
            build,
        ) && edges_are_apart(file, free, count, build),
    decreases count,
{
    if count == 0 {
        built_nodes_are_apart(file, free, file.nodes.len() as int);
    } else if let Ok(next) = edges_built(file, count, free) {
        let build = edges_built(file, count - 1, free)->Ok_0;
        let declaration = file.edges[count - 1];
        let parts = parts_of(declaration.record)->Ok_0;
        let (id, used) = edge_id(
            parts.id,
            declaration.relation.range,
            free,
            build.used,
        )->Ok_0;
        let first = Build { used, ..build };
        let (source, second) = endpoint_added(first, declaration.source, free)->Ok_0;
        let (target, third) = endpoint_added(second, declaration.target, free)->Ok_0;
        assert(build.used <= used <= second.used <= third.used);
        assert(third.used == next.used);
        built_edges_are_apart(file, free, count - 1);
        used_nodes_stay_apart(file, free, build, used);
        edges_use_what_they_want(file, count - 1, free);
        edge_is_next(file, count - 1);
        built_names_are_declared(file, count - 1, free);
        unresolved_names_nobody(file, build.names, declaration.source);
        unresolved_names_nobody(file, build.names, declaration.target);
        let next_wanted = wanted_by_edge(file, declaration);
        wants_rest(file, build.used as int, next_wanted, 0);
        if unresolved(build.names, declaration.source) {
            wants_rest(file, build.used as int, next_wanted, used - build.used);
        }
        if unresolved(build.names, declaration.target) {
            wants_rest(file, build.used as int, next_wanted, second.used - build.used);
        }
        endpoint_keeps_apart(file, free, first, declaration.source);
        endpoint_keeps_apart(file, free, second, declaration.target);
        if parts.id is None {
            LocalEdgeId::bytes_are_found(free[build.used as int]);
            assert(free[build.used as int] == id@);
        } else {
            assert(stated_in(file.edges[count - 1].record, false) == Some(id@));
        }
        edge_keeps_apart(file, free, count - 1, build, next.edges.last(), next);
        assert(next.nodes == third.nodes);
    }
}

proof fn sorted_nodes_differ(nodes: Seq<NodeModel>)
    requires
        nodes_differ(nodes),
    ensures
        nodes_differ(sorted::<Node>(nodes)),
{
    let all = sorted::<Node>(nodes);
    sorted_keeps_items::<Node>(nodes);
    assert(nodes.no_duplicates()) by {
        assert forall|i: int, j: int|
            0 <= i < nodes.len() && 0 <= j < nodes.len() && i != j implies nodes[i] != nodes[j] by {
            if i < j {
                assert(nodes[i].id != nodes[j].id);
            } else {
                assert(nodes[j].id != nodes[i].id);
            }
        }
    }
    nodes.lemma_multiset_has_no_duplicates();
    all.lemma_multiset_has_no_duplicates_conv();
    assert forall|i: int, j: int| 0 <= i < j < all.len() implies (#[trigger] all[i]).id != (
    #[trigger] all[j]).id by {
        assert(all.contains(all[i]) && all.contains(all[j]));
        sorted_contains::<Node>(nodes, all[i]);
        sorted_contains::<Node>(nodes, all[j]);
        let p = choose|p: int| 0 <= p < nodes.len() && nodes[p] == all[i];
        let q = choose|q: int| 0 <= q < nodes.len() && nodes[q] == all[j];
        assert(all[i] != all[j]);
        if p < q {
            assert(nodes[p].id != nodes[q].id);
        } else {
            assert(nodes[q].id != nodes[p].id);
        }
    }
}

proof fn sorted_edges_differ(edges: Seq<EdgeModel>)
    requires
        edges_differ(edges),
    ensures
        edges_differ(sorted::<Edge>(edges)),
{
    let all = sorted::<Edge>(edges);
    sorted_keeps_items::<Edge>(edges);
    assert(edges.no_duplicates()) by {
        assert forall|i: int, j: int|
            0 <= i < edges.len() && 0 <= j < edges.len() && i != j implies edges[i] != edges[j] by {
            if i < j {
                assert(edges[i].id != edges[j].id);
            } else {
                assert(edges[j].id != edges[i].id);
            }
        }
    }
    edges.lemma_multiset_has_no_duplicates();
    all.lemma_multiset_has_no_duplicates_conv();
    assert forall|i: int, j: int| 0 <= i < j < all.len() implies (#[trigger] all[i]).id != (
    #[trigger] all[j]).id by {
        assert(all.contains(all[i]) && all.contains(all[j]));
        sorted_contains::<Edge>(edges, all[i]);
        sorted_contains::<Edge>(edges, all[j]);
        let p = choose|p: int| 0 <= p < edges.len() && edges[p] == all[i];
        let q = choose|q: int| 0 <= q < edges.len() && edges[q] == all[j];
        assert(all[i] != all[j]);
        if p < q {
            assert(edges[p].id != edges[q].id);
        } else {
            assert(edges[q].id != edges[p].id);
        }
    }
}

/// A minted identifier never collides, with a stated one or with another minted one: where
/// the identifiers that a document states all differ, so do those of its nodes, and those of
/// its edges, whatever was issued.
pub proof fn converted_identifiers_differ(file: SourceFileModel, issued: Seq<Seq<u8>>)
    requires
        stated_apart(file),
        hold_identifiers(issued),
    ensures
        graph_from(file, free_of(file, issued)) matches Ok((graph, used)) ==> used <= free_of(
            file,
            issued,
        ).len() ==> nodes_differ(graph.nodes) && edges_differ(graph.edges),
{
    let free = free_of(file, issued);
    free_identifiers_are_free(file, issued);
    if let Ok((graph, used)) = graph_from(file, free) {
        if used <= free.len() {
            built_edges_are_apart(file, free, file.edges.len() as int);
            let build = edges_built(file, file.edges.len() as int, free)->Ok_0;
            sorted_nodes_differ(build.nodes);
            sorted_edges_differ(build.edges);
        }
    }
}

} // verus!
