//! When a record breaks a rule, and what a write counts.

use crate::cypher::RemoveItem;
use crate::cypher::SetItem;
use crate::evidence::SourceRange;
use crate::graph::key_violations;
use crate::graph::keys_of;
use crate::graph::label_violations;
use crate::graph::occurrences;
use crate::graph::repeated;
use crate::graph::repeated_is_exact;
use crate::graph::EdgeModel;
use crate::graph::GraphModel;
use crate::graph::NodeModel;
use crate::graph::ViolationModel;
use crate::id::LocalEdgeId;
use crate::id::LocalNodeId;
use crate::laws::changing::node_stands;
use crate::laws::rows::joined_contains;
use crate::mutate::assigned;
use crate::mutate::can_count;
use crate::mutate::deleted;
use crate::mutate::removed;
use crate::mutate::without_edge;
use crate::mutate::WriteSummary;
use crate::value::QueryModel;
use crate::value::Scoped;
use vstd::prelude::*;

verus! {

// -- Violations --------------------------------------------------------------------

/// Whether a name stands at two places.
pub open spec fn stands_twice(names: Seq<Seq<char>>, name: Seq<char>) -> bool {
    exists|i: int, j: int|
        0 <= i < j < names.len() && #[trigger] names[i] == name && #[trigger] names[j] == name
}

proof fn occurrences_tell_places(names: Seq<Seq<char>>, count: int, name: Seq<char>)
    requires
        0 <= count <= names.len(),
    ensures
        occurrences(names, count, name) >= 1 <==> exists|i: int|
            0 <= i < count && #[trigger] names[i] == name,
        occurrences(names, count, name) >= 2 <==> exists|i: int, j: int|
            0 <= i < j < count && #[trigger] names[i] == name && #[trigger] names[j] == name,
    decreases count,
{
    if count > 0 {
        occurrences_tell_places(names, count - 1, name);
        if names[count - 1] == name {
            assert(names[count - 1] == name);
            if occurrences(names, count - 1, name) >= 1 {
                let i = choose|i: int| 0 <= i < count - 1 && #[trigger] names[i] == name;
                assert(names[i] == name && names[count - 1] == name);
            }
        }
    }
}

proof fn repetitions_are_reported(names: Seq<Seq<char>>, name: Seq<char>)
    ensures
        label_violations(names).contains(ViolationModel::DuplicateLabel { label: name })
            <==> stands_twice(names, name),
        key_violations(names).contains(ViolationModel::DuplicatePropertyKey { key: name })
            <==> stands_twice(names, name),
{
    let n = names.len() as int;
    let found = repeated(names, n);
    repeated_is_exact(names, n, name);
    occurrences_tell_places(names, n, name);
    let labels = label_violations(names);
    let keys = key_violations(names);
    if found.contains(name) {
        let i = choose|i: int| 0 <= i < found.len() && found[i] == name;
        assert(labels[i] == (ViolationModel::DuplicateLabel { label: name }));
        assert(keys[i] == (ViolationModel::DuplicatePropertyKey { key: name }));
    }
    if labels.contains(ViolationModel::DuplicateLabel { label: name }) {
        let i = choose|i: int|
            0 <= i < labels.len() && labels[i] == (ViolationModel::DuplicateLabel { label: name });
        assert(found[i] == name);
    }
    if keys.contains(ViolationModel::DuplicatePropertyKey { key: name }) {
        let i = choose|i: int|
            0 <= i < keys.len() && keys[i] == (ViolationModel::DuplicatePropertyKey { key: name });
        assert(found[i] == name);
    }
}

/// A node is reported exactly for having no label, for each label and each key that stands
/// twice, and for having no contribution.
pub proof fn a_node_is_reported_for_what_it_breaks(node: NodeModel, name: Seq<char>)
    ensures
        node.broken().contains(ViolationModel::NodeWithoutLabel) <==> node.labels.len() == 0,
        node.broken().contains(ViolationModel::DuplicateLabel { label: name }) <==> stands_twice(
            node.labels,
            name,
        ),
        node.broken().contains(ViolationModel::DuplicatePropertyKey { key: name }) <==> stands_twice(
            keys_of(node.properties),
            name,
        ),
        node.broken().contains(ViolationModel::NoContribution) <==> node.contributions.len() == 0,
{
    let a = if node.labels.len() == 0 {
        seq![ViolationModel::NodeWithoutLabel]
    } else {
        Seq::empty()
    };
    let b = label_violations(node.labels);
    let c = key_violations(keys_of(node.properties));
    let d = crate::graph::ownership_violations(node.contributions);
    repetitions_are_reported(node.labels, name);
    repetitions_are_reported(keys_of(node.properties), name);
    let label = ViolationModel::DuplicateLabel { label: name };
    let key = ViolationModel::DuplicatePropertyKey { key: name };
    each_joins(a, b, c, d, ViolationModel::NodeWithoutLabel);
    each_joins(a, b, c, d, label);
    each_joins(a, b, c, d, key);
    each_joins(a, b, c, d, ViolationModel::NoContribution);
    if node.labels.len() == 0 {
        assert(a[0] == ViolationModel::NodeWithoutLabel);
    }
    if node.contributions.len() == 0 {
        assert(d[0] == ViolationModel::NoContribution);
    }
}

proof fn each_joins(
    a: Seq<ViolationModel>,
    b: Seq<ViolationModel>,
    c: Seq<ViolationModel>,
    d: Seq<ViolationModel>,
    one: ViolationModel,
)
    ensures
        (a + b + c + d).contains(one) <==> a.contains(one) || b.contains(one) || c.contains(one)
            || d.contains(one),
{
    joined_contains(a, b, one);
    joined_contains(a + b, c, one);
    joined_contains(a + b + c, d, one);
}

/// An edge is reported exactly for each key that stands twice and for having no contribution.
pub proof fn an_edge_is_reported_for_what_it_breaks(edge: EdgeModel, name: Seq<char>)
    ensures
        edge.broken().contains(ViolationModel::DuplicatePropertyKey { key: name }) <==> stands_twice(
            keys_of(edge.properties),
            name,
        ),
        edge.broken().contains(ViolationModel::NoContribution) <==> edge.contributions.len() == 0,
        !edge.broken().contains(ViolationModel::NodeWithoutLabel),
{
    let c = key_violations(keys_of(edge.properties));
    let d = crate::graph::ownership_violations(edge.contributions);
    repetitions_are_reported(keys_of(edge.properties), name);
    joined_contains(c, d, ViolationModel::DuplicatePropertyKey { key: name });
    joined_contains(c, d, ViolationModel::NoContribution);
    joined_contains(c, d, ViolationModel::NodeWithoutLabel);
    if edge.contributions.len() == 0 {
        assert(d[0] == ViolationModel::NoContribution);
    }
}

// -- Counts ------------------------------------------------------------------------

/// Setting a property counts one property set and nothing else.
pub proof fn a_set_property_is_counted(
    graph: GraphModel,
    summary: WriteSummary,
    item: SetItem,
    variable: Seq<char>,
    id: LocalNodeId,
    value: QueryModel,
    range: SourceRange,
)
    requires
        can_count(summary),
        item is Property,
        value != QueryModel::Null,
    ensures
        assigned(
            graph,
            summary,
            item,
            variable,
            QueryModel::Node(Scoped { source: 0, id }),
            Some(value),
            range,
        ) matches Ok((_, counts)) ==> counts == (WriteSummary {
            properties_set: (summary.properties_set + 1) as u64,
            ..summary
        }),
{
    crate::laws::writing::what_is_stored_is_read_back(value, range);
}

/// Removing a property counts one property removed where there was one, and nothing else.
pub proof fn a_removed_property_is_counted(
    graph: GraphModel,
    summary: WriteSummary,
    item: RemoveItem,
    variable: Seq<char>,
    id: LocalNodeId,
    range: SourceRange,
    k: int,
)
    requires
        can_count(summary),
        item is Property,
        node_stands(graph.nodes, id, k),
    ensures
        removed(
            graph,
            summary,
            item,
            variable,
            QueryModel::Node(Scoped { source: 0, id }),
            range,
        ) matches Ok((_, counts)) ==> counts == (if exists|i: int|
            0 <= i < graph.nodes[k].properties.len() && (#[trigger] graph.nodes[k].properties[i]).0
                == item->Property_key@ {
            WriteSummary { properties_removed: (summary.properties_removed + 1) as u64, ..summary }
        } else {
            summary
        }),
{
    crate::laws::changing::node_is_found(graph.nodes, id, k, 0);
    let properties = graph.nodes[k].properties;
    fewer_without(properties, item->Property_key@, properties.len() as int);
}

proof fn fewer_without(
    properties: Seq<(Seq<char>, crate::property::PropertyModel)>,
    key: Seq<char>,
    count: int,
)
    requires
        0 <= count <= properties.len(),
    ensures
        crate::mutate::without_key(properties, key, count).len() <= count,
        crate::mutate::without_key(properties, key, count).len() != count <==> exists|i: int|
            0 <= i < count && (#[trigger] properties[i]).0 == key,
    decreases count,
{
    if count > 0 {
        fewer_without(properties, key, count - 1);
        if properties[count - 1].0 == key {
            assert(properties[count - 1].0 == key);
        }
    }
}

/// Setting a label counts one label added where it was not carried, and nothing else.
pub proof fn a_set_label_is_counted(
    graph: GraphModel,
    summary: WriteSummary,
    item: SetItem,
    variable: Seq<char>,
    id: LocalNodeId,
    range: SourceRange,
    k: int,
)
    requires
        can_count(summary),
        item is Label,
        node_stands(graph.nodes, id, k),
    ensures
        assigned(
            graph,
            summary,
            item,
            variable,
            QueryModel::Node(Scoped { source: 0, id }),
            None,
            range,
        ) matches Ok((_, counts)) ==> counts == (if graph.nodes[k].labels.contains(
            item->Label_label@,
        ) {
            summary
        } else {
            WriteSummary { labels_added: (summary.labels_added + 1) as u64, ..summary }
        }),
{
    crate::laws::changing::node_is_found(graph.nodes, id, k, 0);
}

/// Deleting a relationship counts one edge deleted where it is there, and nothing else.
pub proof fn a_deleted_edge_is_counted(
    graph: GraphModel,
    summary: WriteSummary,
    id: LocalEdgeId,
    detach: bool,
    range: SourceRange,
)
    requires
        can_count(summary),
    ensures
        deleted(graph, summary, QueryModel::Relationship(Scoped { source: 0, id }), detach, range)
            matches Ok((_, counts)) && counts == (if exists|i: int|
            0 <= i < graph.edges.len() && (#[trigger] graph.edges[i]).id == id {
            WriteSummary { edges_deleted: (summary.edges_deleted + 1) as u64, ..summary }
        } else {
            summary
        }),
{
    fewer_edges_without(graph.edges, id, graph.edges.len() as int);
}

proof fn fewer_edges_without(edges: Seq<EdgeModel>, id: LocalEdgeId, count: int)
    requires
        0 <= count <= edges.len(),
    ensures
        without_edge(edges, id, count).len() <= count,
        without_edge(edges, id, count).len() != count <==> exists|i: int|
            0 <= i < count && (#[trigger] edges[i]).id == id,
    decreases count,
{
    if count > 0 {
        fewer_edges_without(edges, id, count - 1);
        if edges[count - 1].id == id {
            assert(edges[count - 1].id == id);
        }
    }
}

/// Deleting a node that has no edge counts one node deleted where it is there, and nothing else.
pub proof fn a_deleted_node_is_counted(
    graph: GraphModel,
    summary: WriteSummary,
    id: LocalNodeId,
    detach: bool,
    range: SourceRange,
)
    requires
        can_count(summary),
        forall|i: int|
            0 <= i < graph.edges.len() ==> !crate::laws::changing::is_at(#[trigger] graph.edges[i], id),
    ensures
        deleted(graph, summary, QueryModel::Node(Scoped { source: 0, id }), detach, range) matches Ok((
            _,
            counts,
        )) && counts == (if exists|i: int|
            0 <= i < graph.nodes.len() && (#[trigger] graph.nodes[i]).id == id {
            WriteSummary { nodes_deleted: (summary.nodes_deleted + 1) as u64, ..summary }
        } else {
            summary
        }),
{
    nothing_is_incident(graph.edges, id, graph.edges.len() as int);
    fewer_nodes_without(graph.nodes, id, graph.nodes.len() as int);
}

proof fn nothing_is_incident(edges: Seq<EdgeModel>, id: LocalNodeId, count: int)
    requires
        0 <= count <= edges.len(),
        forall|i: int|
            0 <= i < edges.len() ==> !crate::laws::changing::is_at(#[trigger] edges[i], id),
    ensures
        crate::mutate::incident(edges, id, count).len() == 0,
    decreases count,
{
    if count > 0 {
        nothing_is_incident(edges, id, count - 1);
        assert(!crate::laws::changing::is_at(edges[count - 1], id));
    }
}

proof fn fewer_nodes_without(nodes: Seq<NodeModel>, id: LocalNodeId, count: int)
    requires
        0 <= count <= nodes.len(),
    ensures
        crate::mutate::without_node(nodes, id, count).len() <= count,
        crate::mutate::without_node(nodes, id, count).len() != count <==> exists|i: int|
            0 <= i < count && (#[trigger] nodes[i]).id == id,
    decreases count,
{
    if count > 0 {
        fewer_nodes_without(nodes, id, count - 1);
        if nodes[count - 1].id == id {
            assert(nodes[count - 1].id == id);
        }
    }
}

/// A union removes duplicates exactly where one of its joints does not keep all.
pub proof fn one_plain_union_removes_duplicates(union_all: Seq<bool>, count: int)
    requires
        0 <= count <= union_all.len(),
    ensures
        crate::execute::removes_duplicates(union_all, count) <==> exists|i: int|
            0 <= i < count && !#[trigger] union_all[i],
    decreases count,
{
    if count > 0 {
        one_plain_union_removes_duplicates(union_all, count - 1);
        if !union_all[count - 1] {
            assert(!union_all[count - 1]);
        }
    }
}

} // verus!
