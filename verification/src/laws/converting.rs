//! What the declarations of a source file become.

use crate::evidence::SourceRange;
use crate::contribution::OwnerModel;
use crate::graph::NodeModel;
use crate::graph::ReferenceModel;
use crate::id::LocalNodeId;
use crate::id::SourceUnitId;
use crate::laws::rows::pushed_contains;
use crate::name::Label;
use crate::name::PropertyKey;
use crate::nost::convert::contribution_from;
use crate::nost::convert::edge_added;
use crate::nost::convert::endpoint_added;
use crate::nost::convert::evidence_from;
use crate::nost::convert::extra_labels;
use crate::nost::convert::find_field;
use crate::nost::convert::find_name;
use crate::nost::convert::label_items;
use crate::nost::convert::labels_from;
use crate::nost::convert::named_labels;
use crate::nost::convert::node_added;
use crate::nost::convert::part_added;
use crate::nost::convert::parts_from;
use crate::nost::convert::parts_of;
use crate::nost::convert::property_from;
use crate::nost::convert::scalar_from;
use crate::nost::convert::scalars_from;
use crate::nost::convert::text_of_key;
use crate::nost::convert::with_new;
use crate::nost::convert::Build;
use crate::nost::convert::Parts;
use crate::nost::ContributionBlockModel;
use crate::nost::EdgeDeclarationModel;
use crate::nost::EndpointModel;
use crate::nost::EvidenceBlockModel;
use crate::nost::EvidenceFieldModel;
use crate::nost::EvidenceValueModel;
use crate::nost::NodeDeclarationModel;
use crate::nost::OwnerDeclarationModel;
use crate::nost::PropertyModel as Written;
use crate::nost::Spanned;
use crate::nost::ValueModel;
use crate::number::shown;
use crate::number::shown_reads_back;
use crate::order::sorted_contains;
use crate::property::PropertyModel;
use crate::property::PropertyValue;
use crate::property::ScalarModel;
use vstd::prelude::*;

verus! {

// -- Values ------------------------------------------------------------------------

/// Whether a stored scalar is what a written value says.
pub open spec fn is_said(value: ValueModel, scalar: ScalarModel) -> bool {
    match (value, scalar) {
        (ValueModel::Boolean(a), ScalarModel::Boolean(b)) => a == b,
        (ValueModel::Integer(text), ScalarModel::Integer(number)) => crate::number::read_signed(text)
            == Some(number as int),
        (ValueModel::Float(text), ScalarModel::Float(bits)) => crate::decimal::read_double(text)
            == Some(bits),
        (ValueModel::String(a), ScalarModel::String(b)) => a == b,
        (ValueModel::Bytes { decoded, .. }, ScalarModel::Bytes(bytes)) => decoded == bytes,
        (ValueModel::DateTime(a), ScalarModel::DateTime(b)) => a == b,
        _ => false,
    }
}

proof fn items_are_said(items: Seq<Spanned<ValueModel>>, at: int, before: Seq<ScalarModel>)
    requires
        0 <= at <= items.len(),
        before.len() == at,
        forall|i: int| 0 <= i < at ==> is_said(items[i].value, #[trigger] before[i]),
    ensures
        scalars_from(items, at, before) matches Ok(found) ==> found.len() == items.len() && forall|
            i: int,
        |
            0 <= i < items.len() ==> is_said(items[i].value, #[trigger] found[i]),
    decreases items.len() - at,
{
    if at < items.len() {
        if let Ok(found) = scalar_from(items[at].value, items[at].range) {
            a_scalar_is_as_written(items[at].value, items[at].range, 0);
            items_are_said(items, at + 1, before.push(found));
        }
    }
}

/// A scalar becomes a value of its own kind that says what is written. Every number that fits
/// into 64 bits does, and a list is no scalar.
pub proof fn a_scalar_is_as_written(value: ValueModel, range: SourceRange, n: int)
    ensures
        scalar_from(value, range) matches Ok(found) ==> is_said(value, found),
        i64::MIN <= n <= i64::MAX ==> (scalar_from(ValueModel::Integer(shown(n)), range) matches Ok(
            ScalarModel::Integer(number),
        ) && number == n),
        value is Boolean || value is String || value is Bytes ==> scalar_from(value, range) is Ok,
        value is List ==> scalar_from(value, range) is Err,
{
    if i64::MIN <= n <= i64::MAX {
        shown_reads_back(n);
    }
    if let ValueModel::Integer(text) = value {
        if let Some(number) = crate::number::read_signed(text) {
            assert(i64::MIN <= number <= i64::MAX);
        }
    }
}

/// A value becomes a property that says what is written: a list becomes a list with as many
/// items, each in its place, and anything else a scalar.
pub proof fn a_property_is_as_written(value: Spanned<ValueModel>)
    ensures
        property_from(value) matches Ok(found) ==> match (value.value, found) {
            (ValueModel::List(items), PropertyModel::List(scalars)) => scalars.len() == items.len()
                && forall|i: int|
                0 <= i < items.len() ==> is_said(items[i].value, #[trigger] scalars[i]),
            (ValueModel::List(_), _) => false,
            (other, PropertyModel::Scalar(scalar)) => is_said(other, scalar),
            _ => false,
        },
{
    a_scalar_is_as_written(value.value, value.range, 0);
    if let ValueModel::List(items) = value.value {
        items_are_said(items, 0, Seq::empty());
    }
}

// -- Labels ------------------------------------------------------------------------

proof fn schema_names_become_labels(
    named: Seq<Spanned<Seq<char>>>,
    at: int,
    before: Seq<Seq<char>>,
    label: Seq<char>,
)
    requires
        0 <= at <= named.len(),
    ensures
        named_labels(named, at, before) matches Ok(labels) ==> (labels.contains(label) <==> (
        before.contains(label) || exists|i: int|
            at <= i < named.len() && (#[trigger] named[i]).value == label)),
    decreases named.len() - at,
{
    if at < named.len() {
        pushed_contains(before, named[at].value, label);
        schema_names_become_labels(named, at + 1, with_new(before, named[at].value), label);
        if named[at].value == label {
            assert(with_new(before, named[at].value).contains(label));
        }
    }
}

proof fn extra_names_become_labels(
    extra: Seq<Seq<char>>,
    at: int,
    range: SourceRange,
    before: Seq<Seq<char>>,
    label: Seq<char>,
)
    requires
        0 <= at <= extra.len(),
    ensures
        extra_labels(extra, at, range, before) matches Ok(labels) ==> (labels.contains(label) <==> (
        before.contains(label) || exists|i: int|
            at <= i < extra.len() && #[trigger] extra[i] == label)),
    decreases extra.len() - at,
{
    if at < extra.len() {
        pushed_contains(before, extra[at], label);
        extra_names_become_labels(extra, at + 1, range, with_new(before, extra[at]), label);
        if extra[at] == label {
            assert(with_new(before, extra[at]).contains(label));
        }
    }
}

proof fn listed_texts_are_labels(
    items: Seq<Spanned<ValueModel>>,
    at: int,
    before: Seq<Seq<char>>,
    label: Seq<char>,
)
    requires
        0 <= at <= items.len(),
    ensures
        label_items(items, at, before) matches Ok(found) ==> (found.contains(label) <==> (
        before.contains(label) || exists|i: int|
            at <= i < items.len() && (#[trigger] items[i]).value == ValueModel::String(label))),
    decreases items.len() - at,
{
    if at < items.len() {
        if let ValueModel::String(text) = items[at].value {
            pushed_contains(before, text, label);
            listed_texts_are_labels(items, at + 1, before.push(text), label);
            if text == label {
                assert(items[at].value == ValueModel::String(label));
            }
        }
    }
}

// -- Records -----------------------------------------------------------------------

/// Whether a property of a block lists a label under the reserved key.
pub open spec fn lists_label(property: Written, label: Seq<char>) -> bool {
    &&& property.key.value == "labels"@
    &&& property.value.value matches ValueModel::List(items) && exists|i: int|
        0 <= i < items.len() && (#[trigger] items[i]).value == ValueModel::String(label)
}

/// Whether a property of a block is an ordinary one and stands for this.
pub open spec fn stands_for(property: Written, one: (Seq<char>, PropertyModel)) -> bool {
    &&& property.key.value != "id"@ && property.key.value != "labels"@
    &&& property.key.value == one.0
    &&& property_from(property.value) matches Ok(value) && value == one.1
}

proof fn a_block_carries_its_properties(
    properties: Seq<Written>,
    at: int,
    parts: Parts,
    label: Seq<char>,
    one: (Seq<char>, PropertyModel),
)
    requires
        0 <= at <= properties.len(),
    ensures
        parts_from(properties, at, parts) matches Ok(found) ==> {
            &&& found.extra.contains(label) <==> parts.extra.contains(label) || exists|i: int|
                at <= i < properties.len() && lists_label(#[trigger] properties[i], label)
            &&& found.properties.contains(one) <==> parts.properties.contains(one) || exists|i: int|
                at <= i < properties.len() && stands_for(#[trigger] properties[i], one)
        },
    decreases properties.len() - at,
{
    reveal_strlit("id");
    reveal_strlit("labels");
    assert("id"@.len() == 2 && "labels"@.len() == 6);
    if at < properties.len() {
        let property = properties[at];
        if let Ok(next) = part_added(parts, property) {
            a_block_carries_its_properties(properties, at + 1, next, label, one);
            if property.key.value == "labels"@ {
                let items = property.value.value->List_0;
                listed_texts_are_labels(items, 0, parts.extra, label);
                assert(next.extra.contains(label) <==> parts.extra.contains(label) || lists_label(
                    property,
                    label,
                ));
            } else if property.key.value != "id"@ {
                let value = property_from(property.value)->Ok_0;
                pushed_contains(parts.properties, (property.key.value, value), one);
            }
            assert(next.extra.contains(label) <==> parts.extra.contains(label) || lists_label(
                properties[at],
                label,
            ));
            assert(next.properties.contains(one) <==> parts.properties.contains(one) || stands_for(
                properties[at],
                one,
            ));
        }
    }
}

/// A declared node becomes one node behind the others. Its labels are the schemas that it names
/// and those that it lists, its properties are those of its block without the reserved ones, and
/// its name stands for it from then on.
pub proof fn a_declared_node_is_built(
    build: Build,
    declaration: NodeDeclarationModel,
    minted: Seq<Seq<u8>>,
    label: Seq<char>,
    one: (Seq<char>, PropertyModel),
)
    requires
        node_added(build, declaration, minted) is Ok,
    ensures
        ({
            let after = node_added(build, declaration, minted)->Ok_0;
            let node = after.nodes.last();
            &&& after.nodes == build.nodes.push(node)
            &&& after.edges == build.edges
            &&& after.names == build.names.push((declaration.name.value, node.id))
            &&& node.labels.contains(label) <==> (exists|i: int|
                0 <= i < declaration.schemas.len() && (#[trigger] declaration.schemas[i]).value
                    == label) || exists|i: int|
                0 <= i < declaration.record.properties.len() && lists_label(
                    #[trigger] declaration.record.properties[i],
                    label,
                )
            &&& node.properties.contains(one) <==> exists|i: int|
                0 <= i < declaration.record.properties.len() && stands_for(
                    #[trigger] declaration.record.properties[i],
                    one,
                )
        }),
{
    let parts = parts_of(declaration.record)->Ok_0;
    let none = crate::nost::convert::no_parts();
    a_block_carries_its_properties(declaration.record.properties, 0, none, label, one);
    let found = named_labels(declaration.schemas, 0, Seq::empty())->Ok_0;
    schema_names_become_labels(declaration.schemas, 0, Seq::empty(), label);
    extra_names_become_labels(parts.extra, 0, declaration.name.range, found, label);
    let labels = labels_from(declaration.schemas, parts.extra, declaration.name.range)->Ok_0;
    sorted_contains::<Label>(labels, label);
    sorted_contains::<(PropertyKey, PropertyValue)>(parts.properties, one);
    if parts.extra.contains(label) {
        let i = choose|i: int| 0 <= i < parts.extra.len() && parts.extra[i] == label;
        assert(parts.extra[i] == label);
    }
}

// -- Edges -------------------------------------------------------------------------

proof fn the_last_name_counts(names: Seq<(Seq<char>, LocalNodeId)>, count: int, name: Seq<char>)
    requires
        0 <= count <= names.len(),
    ensures
        match find_name(names, count, name) {
            Some(id) => exists|k: int|
                0 <= k < count && (#[trigger] names[k]) == (name, id) && forall|j: int|
                    k < j < count ==> (#[trigger] names[j]).0 != name,
            None => forall|j: int| 0 <= j < count ==> (#[trigger] names[j]).0 != name,
        },
    decreases count,
{
    if count > 0 {
        if names[count - 1].0 == name {
            assert(names[count - 1] == (name, names[count - 1].1));
        } else {
            the_last_name_counts(names, count - 1, name);
            if let Some(id) = find_name(names, count - 1, name) {
                let k = choose|k: int|
                    0 <= k < count - 1 && (#[trigger] names[k]) == (name, id) && forall|j: int|
                        k < j < count - 1 ==> (#[trigger] names[j]).0 != name;
                assert(names[k] == (name, id));
            }
        }
    }
}

/// Whether a reference is what an endpoint names: the node that was last declared with the name,
/// or, where none was, a node of its own with the label of a placeholder and nothing else.
pub open spec fn is_named(
    names: Seq<(Seq<char>, LocalNodeId)>,
    before: Seq<NodeModel>,
    after: Seq<NodeModel>,
    endpoint: EndpointModel,
    reference: ReferenceModel,
) -> bool {
    &&& endpoint is Local
    &&& reference is Local
    &&& (exists|k: int| #[trigger]
        is_last_name(names, (endpoint->Local_0).value, reference->Local_0, k)) || ((forall|j: int|
        0 <= j < names.len() ==> (#[trigger] names[j]).0 != (endpoint->Local_0).value) && exists|
        k: int,
    |
        before.len() <= k < after.len() && (#[trigger] after[k]).id == reference->Local_0
            && after[k].labels == seq!["Placeholder"@] && after[k].properties.len() == 0)
}

/// Whether a name last stands for a node at a place.
pub open spec fn is_last_name(
    names: Seq<(Seq<char>, LocalNodeId)>,
    name: Seq<char>,
    id: LocalNodeId,
    k: int,
) -> bool {
    &&& 0 <= k < names.len()
    &&& names[k] == (name, id)
    &&& forall|j: int| k < j < names.len() ==> (#[trigger] names[j]).0 != name
}

proof fn an_endpoint_is_named(build: Build, endpoint: EndpointModel, minted: Seq<Seq<u8>>)
    ensures
        endpoint_added(build, endpoint, minted) matches Ok((reference, after)) ==> {
            &&& is_named(build.names, build.nodes, after.nodes, endpoint, reference)
            &&& after.names == build.names
            &&& after.edges == build.edges
            &&& after.nodes.len() >= build.nodes.len()
            &&& forall|i: int| 0 <= i < build.nodes.len() ==> after.nodes[i] == #[trigger] build.nodes[i]
        },
        !(endpoint is Local) ==> endpoint_added(build, endpoint, minted) is Err,
{
    if let EndpointModel::Local(name) = endpoint {
        the_last_name_counts(build.names, build.names.len() as int, name.value);
        let (reference, after) = endpoint_added(build, endpoint, minted)->Ok_0;
        match find_name(build.names, build.names.len() as int, name.value) {
            Some(id) => {
                let k = choose|k: int|
                    0 <= k < build.names.len() && (#[trigger] build.names[k]) == (name.value, id)
                        && forall|j: int|
                        k < j < build.names.len() ==> (#[trigger] build.names[j]).0 != name.value;
                assert(is_last_name(build.names, name.value, id, k));
                assert(reference == ReferenceModel::Local(id));
                assert(is_last_name(
                    build.names,
                    (endpoint->Local_0).value,
                    reference->Local_0,
                    k,
                ));
                assert(is_named(build.names, build.nodes, after.nodes, endpoint, reference));
            },
            None => {
                let k = build.nodes.len() as int;
                let id = reference->Local_0;
                assert(after.nodes[k] == crate::nost::convert::placeholder(id));
                assert(after.nodes[k].id == id && after.nodes[k].labels == seq!["Placeholder"@]
                    && after.nodes[k].properties.len() == 0);
                assert(is_named(build.names, build.nodes, after.nodes, endpoint, reference));
            },
        }
    }
}

/// A declared edge becomes one edge behind the others, from what its source names to what its
/// target names, with its relation and the properties of its block. An end that names nothing
/// gets a placeholder, and one that names another source is refused.
pub proof fn a_declared_edge_is_built(
    build: Build,
    declaration: EdgeDeclarationModel,
    minted: Seq<Seq<u8>>,
    one: (Seq<char>, PropertyModel),
)
    ensures
        edge_added(build, declaration, minted) matches Ok(after) ==> {
            let edge = after.edges.last();
            &&& after.edges == build.edges.push(edge)
            &&& edge.relation == declaration.relation.value
            &&& is_named(build.names, build.nodes, after.nodes, declaration.source, edge.source)
            &&& is_named(build.names, build.nodes, after.nodes, declaration.target, edge.target)
            &&& edge.properties.contains(one) <==> exists|i: int|
                0 <= i < declaration.record.properties.len() && stands_for(
                    #[trigger] declaration.record.properties[i],
                    one,
                )
        },
        !(declaration.source is Local) || !(declaration.target is Local) ==> edge_added(
            build,
            declaration,
            minted,
        ) is Err,
{
    if let Ok(parts) = parts_of(declaration.record) {
        a_block_carries_its_properties(
            declaration.record.properties,
            0,
            crate::nost::convert::no_parts(),
            Seq::empty(),
            one,
        );
        sorted_contains::<(PropertyKey, PropertyValue)>(parts.properties, one);
        let range = declaration.relation.range;
        if let Ok((id, used)) = crate::nost::convert::edge_id(parts.id, range, minted, build.used) {
            let first = Build { used, ..build };
            an_endpoint_is_named(first, declaration.source, minted);
            if let Ok((source, second)) = endpoint_added(first, declaration.source, minted) {
                an_endpoint_is_named(second, declaration.target, minted);
                if let Ok((target, third)) = endpoint_added(second, declaration.target, minted) {
                    if let Ok(after) = edge_added(build, declaration, minted) {
                        named_still(
                            build.names,
                            build.nodes,
                            second.nodes,
                            third.nodes,
                            declaration.source,
                            source,
                        );
                        named_before(
                            build.names,
                            build.nodes,
                            second.nodes,
                            third.nodes,
                            declaration.target,
                            target,
                        );
                    }
                }
            }
        }
    }
}

proof fn named_still(
    names: Seq<(Seq<char>, LocalNodeId)>,
    before: Seq<NodeModel>,
    middle: Seq<NodeModel>,
    after: Seq<NodeModel>,
    endpoint: EndpointModel,
    reference: ReferenceModel,
)
    requires
        is_named(names, before, middle, endpoint, reference),
        after.len() >= middle.len(),
        forall|i: int| 0 <= i < middle.len() ==> after[i] == #[trigger] middle[i],
    ensures
        is_named(names, before, after, endpoint, reference),
{
    let name = endpoint->Local_0;
    let id = reference->Local_0;
    if !(exists|k: int| #[trigger] is_last_name(names, name.value, id, k)) {
        let k = choose|k: int|
            before.len() <= k < middle.len() && (#[trigger] middle[k]).id == id && middle[k].labels
                == seq!["Placeholder"@] && middle[k].properties.len() == 0;
        assert(after[k] == middle[k]);
    }
}

proof fn named_before(
    names: Seq<(Seq<char>, LocalNodeId)>,
    before: Seq<NodeModel>,
    middle: Seq<NodeModel>,
    after: Seq<NodeModel>,
    endpoint: EndpointModel,
    reference: ReferenceModel,
)
    requires
        is_named(names, middle, after, endpoint, reference),
        middle.len() >= before.len(),
    ensures
        is_named(names, before, after, endpoint, reference),
{
    let name = endpoint->Local_0;
    let id = reference->Local_0;
    if !(exists|k: int| #[trigger] is_last_name(names, name.value, id, k)) {
        let k = choose|k: int|
            middle.len() <= k < after.len() && (#[trigger] after[k]).id == id && after[k].labels
                == seq!["Placeholder"@] && after[k].properties.len() == 0;
        assert(after[k].id == id);
    }
}

// -- Contributions -----------------------------------------------------------------

/// Whether a field is the first of its block with a key.
pub open spec fn is_first_field(fields: Seq<EvidenceFieldModel>, key: Seq<char>, k: int) -> bool {
    &&& 0 <= k < fields.len()
    &&& fields[k].key.value == key
    &&& forall|j: int| 0 <= j < k ==> (#[trigger] fields[j]).key.value != key
}

proof fn the_first_field_is_found(fields: Seq<EvidenceFieldModel>, key: Seq<char>, k: int, at: int)
    requires
        is_first_field(fields, key, k),
        0 <= at <= k,
    ensures
        find_field(fields, key, at) == Some(k),
    decreases k - at,
{
    if at < k {
        assert(fields[at].key.value != key);
        the_first_field_is_found(fields, key, k, at + 1);
    }
}

/// Whether a block states a text under a key.
pub open spec fn states_text(block: EvidenceBlockModel, key: Seq<char>, text: Seq<char>) -> bool {
    exists|k: int| #[trigger]
        is_first_field(block.fields, key, k) && block.fields[k].value.value
            == EvidenceValueModel::Text(text)
}

proof fn a_stated_text_is_read(block: EvidenceBlockModel, key: Seq<char>, text: Seq<char>)
    requires
        states_text(block, key, text),
    ensures
        text_of_key(block.fields, key) matches Some((found, _)) && found == text,
{
    let k = choose|k: int| #[trigger]
        is_first_field(block.fields, key, k) && block.fields[k].value.value
            == EvidenceValueModel::Text(text);
    the_first_field_is_found(block.fields, key, k, 0);
}

/// Evidence says what its block states: its source, its digest, its path, its revision and its
/// producer. What a block leaves out of its producer comes from the analyzer that owns it.
pub proof fn evidence_says_what_is_stated(
    block: EvidenceBlockModel,
    inherited: Option<(Seq<char>, Seq<char>)>,
    text: Seq<char>,
)
    requires
        evidence_from(block, inherited) is Ok,
    ensures
        ({
            let item = evidence_from(block, inherited)->Ok_0;
            &&& states_text(block, "source"@, text) ==> item.source == text
            &&& states_text(block, "digest"@, text) ==> item.content_digest == text
            &&& states_text(block, "path"@, text) ==> item.path == Some(text)
            &&& states_text(block, "revision"@, text) ==> item.resolved_revision == Some(text)
            &&& states_text(block, "producer"@, text) ==> item.producer == text
            &&& states_text(block, "producer_version"@, text) ==> item.producer_version == text
            &&& text_of_key(block.fields, "producer"@) is None ==> (inherited matches Some((
                who,
                _,
            )) && item.producer == who)
            &&& text_of_key(block.fields, "producer_version"@) is None ==> (inherited matches Some((
                _,
                which,
            )) && item.producer_version == which)
            &&& text_of_key(block.fields, "path"@) is None ==> item.path is None
            &&& text_of_key(block.fields, "revision"@) is None ==> item.resolved_revision is None
        }),
{
    if states_text(block, "source"@, text) {
        a_stated_text_is_read(block, "source"@, text);
    }
    if states_text(block, "digest"@, text) {
        a_stated_text_is_read(block, "digest"@, text);
    }
    if states_text(block, "path"@, text) {
        a_stated_text_is_read(block, "path"@, text);
    }
    if states_text(block, "revision"@, text) {
        a_stated_text_is_read(block, "revision"@, text);
    }
    if states_text(block, "producer"@, text) {
        a_stated_text_is_read(block, "producer"@, text);
    }
    if states_text(block, "producer_version"@, text) {
        a_stated_text_is_read(block, "producer_version"@, text);
    }
}

/// A contribution belongs to the owner that is declared, and to the unit that is stated, or to
/// that of queries where none is. It has one piece of evidence for each block.
pub proof fn a_contribution_is_as_declared(block: ContributionBlockModel)
    requires
        contribution_from(block) is Ok,
    ensures
        ({
            let made = contribution_from(block)->Ok_0;
            &&& match block.owner {
                OwnerDeclarationModel::Analyzer { name, version } => made.owner
                    == (OwnerModel::Analyzer { name: name.value, version: version.value }),
                OwnerDeclarationModel::Ai { contract_digest } => made.owner
                    == (OwnerModel::AiAnalysis { contract_digest: contract_digest.value }),
                OwnerDeclarationModel::User { .. } => made.owner == OwnerModel::User,
                OwnerDeclarationModel::Named { name } => made.owner == (OwnerModel::Named {
                    name: name.value,
                }),
            }
            &&& block.unit is None ==> made.source_unit == SourceUnitId::with_bytes(
                Seq::new(16, |i: int| 0u8),
            )
            &&& block.unit matches Some(unit) ==> made.source_unit == SourceUnitId::with_text(
                unit.value,
            )
            &&& made.evidence.len() == block.evidence.len()
        }),
{
    each_block_is_evidence(
        block.evidence,
        crate::nost::convert::supplied(block.owner),
        0,
        Seq::empty(),
    );
}

proof fn each_block_is_evidence(
    blocks: Seq<EvidenceBlockModel>,
    inherited: Option<(Seq<char>, Seq<char>)>,
    at: int,
    before: Seq<crate::evidence::EvidenceModel>,
)
    requires
        0 <= at <= blocks.len(),
        before.len() == at,
    ensures
        crate::nost::convert::evidence_list(blocks, inherited, at, before) matches Ok(found)
            ==> found.len() == blocks.len() && (forall|i: int|
            0 <= i < at ==> found[i] == #[trigger] before[i]) && forall|i: int|
            at <= i < blocks.len() ==> evidence_from(#[trigger] blocks[i], inherited) == Ok::<
                crate::evidence::EvidenceModel,
                crate::nost::convert::ConversionErrorModel,
            >(found[i]),
    decreases blocks.len() - at,
{
    if at < blocks.len() {
        if let Ok(one) = evidence_from(blocks[at], inherited) {
            let more = before.push(one);
            each_block_is_evidence(blocks, inherited, at + 1, more);
            if let Ok(found) = crate::nost::convert::evidence_list(blocks, inherited, at, before) {
                assert(found[at] == more[at]);
                assert forall|i: int| 0 <= i < at implies found[i] == #[trigger] before[i] by {
                    assert(more[i] == before[i]);
                }
            }
        }
    }
}

} // verus!
