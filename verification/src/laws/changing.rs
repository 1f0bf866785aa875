//! What setting, removing, deleting and merging change, and what they leave alone.

use crate::contribution::ContributionModel;
use crate::contribution::OwnerKind;
use crate::clauses::pattern_evaluated;
use crate::cypher::QueryErrorModel;
use crate::cypher::Pattern;
use crate::cypher::RemoveItem;
use crate::cypher::SetItem;
use crate::diagnostic::DiagnosticModel;
use crate::evidence::SourceRange;
use crate::execute::label_warning;
use crate::execute::label_warnings;

use crate::execute::patterns_created;
use crate::execute::rows_created;
use crate::execute::rows_merged;
use crate::execute::unique_rows;
use crate::execute::with_scope;
use crate::execute::without_scope;
use crate::execute::Changed;
use crate::execute::Setting;
use crate::graph::EdgeModel;
use crate::graph::GraphModel;
use crate::graph::NodeModel;
use crate::graph::ReferenceModel;
use crate::id::LocalEdgeId;
use crate::id::LocalNodeId;
use crate::laws::rows::pushed_contains;
use crate::laws::writing::a_changed_property_is_read_back;
use crate::laws::writing::gives_for;
use crate::laws::writing::is_scalar;
use crate::laws::writing::what_is_stored_is_read_back;
use crate::matching::matched;
use crate::matching::Scope;
use crate::mutate::assigned;
use crate::mutate::deleted;
use crate::mutate::edges_deleted;
use crate::mutate::incident;
use crate::mutate::pattern_created;
use crate::mutate::removed;
use crate::mutate::stored;
use crate::mutate::user_owned;
use crate::mutate::with_user;
use crate::mutate::without_edge;
use crate::mutate::without_label;
use crate::mutate::without_node;
use crate::mutate::Minted;
use crate::mutate::PatternModel;
use crate::mutate::WriteSummary;
use crate::name::name_fault;
use crate::procedure::edge_at;
use crate::procedure::node_at;
use crate::value::QueryModel;
use crate::value::Scoped;
use vstd::prelude::*;

verus! {

/// Whether a node is the first with an identifier.
pub open spec fn node_stands(nodes: Seq<NodeModel>, id: LocalNodeId, k: int) -> bool {
    &&& 0 <= k < nodes.len()
    &&& nodes[k].id == id
    &&& forall|j: int| 0 <= j < k ==> (#[trigger] nodes[j]).id != id
}

/// Whether an edge is the first with an identifier.
pub open spec fn edge_stands(edges: Seq<EdgeModel>, id: LocalEdgeId, k: int) -> bool {
    &&& 0 <= k < edges.len()
    &&& edges[k].id == id
    &&& forall|j: int| 0 <= j < k ==> (#[trigger] edges[j]).id != id
}

pub proof fn node_is_found(nodes: Seq<NodeModel>, id: LocalNodeId, k: int, at: int)
    requires
        node_stands(nodes, id, k),
        0 <= at <= k,
    ensures
        node_at(nodes, id, at) == Some(k),
    decreases k - at,
{
    if at < k {
        assert(nodes[at].id != id);
        node_is_found(nodes, id, k, at + 1);
    }
}

pub proof fn edge_is_found(edges: Seq<EdgeModel>, id: LocalEdgeId, k: int, at: int)
    requires
        edge_stands(edges, id, k),
        0 <= at <= k,
    ensures
        edge_at(edges, id, at) == Some(k),
    decreases k - at,
{
    if at < k {
        assert(edges[at].id != id);
        edge_is_found(edges, id, k, at + 1);
    }
}

/// Whether only the node at a place differs, and keeps its identifier.
pub open spec fn only_node_differs(before: GraphModel, after: GraphModel, k: int) -> bool {
    &&& after.nodes.len() == before.nodes.len()
    &&& after.edges == before.edges
    &&& forall|j: int| 0 <= j < before.nodes.len() && j != k ==> after.nodes[j] == #[trigger] before.nodes[j]
    &&& after.nodes[k].id == before.nodes[k].id
}

/// Whether only the edge at a place differs, and keeps its identifier, its ends and its type.
pub open spec fn only_edge_differs(before: GraphModel, after: GraphModel, k: int) -> bool {
    &&& after.edges.len() == before.edges.len()
    &&& after.nodes == before.nodes
    &&& forall|j: int| 0 <= j < before.edges.len() && j != k ==> after.edges[j] == #[trigger] before.edges[j]
    &&& after.edges[k].id == before.edges[k].id
    &&& after.edges[k].source == before.edges[k].source
    &&& after.edges[k].target == before.edges[k].target
    &&& after.edges[k].relation == before.edges[k].relation
}

proof fn user_is_one(entries: Seq<ContributionModel>, count: int)
    requires
        0 <= count <= entries.len(),
    ensures
        user_owned(entries, count) <==> exists|i: int|
            0 <= i < count && (#[trigger] entries[i]).owner.kind() == OwnerKind::User,
    decreases count,
{
    if count > 0 {
        user_is_one(entries, count - 1);
        if entries[count - 1].owner.kind() == OwnerKind::User {
            assert(entries[count - 1].owner.kind() == OwnerKind::User);
        }
    }
}

/// Whether what contributed before still does, and the user does.
pub open spec fn is_the_users_too(
    before: Seq<ContributionModel>,
    after: Seq<ContributionModel>,
) -> bool {
    &&& after.len() >= before.len()
    &&& forall|i: int| 0 <= i < before.len() ==> after[i] == #[trigger] before[i]
    &&& exists|i: int| 0 <= i < after.len() && (#[trigger] after[i]).owner.kind() == OwnerKind::User
}

/// What the user changes is the user's from then on, and stays whose it was.
pub proof fn a_change_is_the_users_too(before: Seq<ContributionModel>)
    ensures
        is_the_users_too(before, with_user(before)),
{
    user_is_one(before, before.len() as int);
    let after = with_user(before);
    if !user_owned(before, before.len() as int) {
        assert(after[before.len() as int].owner.kind() == OwnerKind::User);
    }
}

// -- Properties --------------------------------------------------------------------

/// A node's property that is set gives the value from then on, and null where that is null.
/// Its other properties, its labels and every other record stay as they were.
pub proof fn a_set_property_of_a_node_is_read_back(
    graph: GraphModel,
    summary: WriteSummary,
    item: SetItem,
    variable: Seq<char>,
    id: LocalNodeId,
    value: QueryModel,
    range: SourceRange,
    k: int,
    other: Seq<char>,
    was: QueryModel,
)
    requires
        item is Property,
        node_stands(graph.nodes, id, k),
        other != item->Property_key@,
        gives_for(graph.nodes[k].properties, other, was),
    ensures
        ({
            let made = assigned(
                graph,
                summary,
                item,
                variable,
                QueryModel::Node(Scoped { source: 0, id }),
                Some(value),
                range,
            );
            &&& made is Ok <==> name_fault(item->Property_key@) is None && (value
                == QueryModel::Null || is_scalar(value) || (value matches QueryModel::List(items)
                && forall|i: int| 0 <= i < items.len() ==> is_scalar(#[trigger] items[i])))
            &&& made matches Ok((after, _)) ==> {
                &&& only_node_differs(graph, after, k)
                &&& after.nodes[k].labels == graph.nodes[k].labels
                &&& gives_for(after.nodes[k].properties, item->Property_key@, value)
                &&& gives_for(after.nodes[k].properties, other, was)
                &&& value != QueryModel::Null ==> is_the_users_too(
                    graph.nodes[k].contributions,
                    after.nodes[k].contributions,
                )
            }
        }),
{
    node_is_found(graph.nodes, id, k, 0);
    what_is_stored_is_read_back(value, range);
    a_change_is_the_users_too(graph.nodes[k].contributions);
    if let Ok(found) = stored(value, range) {
        a_changed_property_is_read_back(
            graph.nodes[k].properties,
            item->Property_key@,
            found,
            other,
            was,
        );
    }
}

/// A relationship's property that is set gives the value from then on, and null where that is
/// null. Its other properties, its ends, its type and every other record stay as they were.
pub proof fn a_set_property_of_an_edge_is_read_back(
    graph: GraphModel,
    summary: WriteSummary,
    item: SetItem,
    variable: Seq<char>,
    id: LocalEdgeId,
    value: QueryModel,
    range: SourceRange,
    k: int,
    other: Seq<char>,
    was: QueryModel,
)
    requires
        item is Property,
        edge_stands(graph.edges, id, k),
        other != item->Property_key@,
        gives_for(graph.edges[k].properties, other, was),
    ensures
        ({
            let made = assigned(
                graph,
                summary,
                item,
                variable,
                QueryModel::Relationship(Scoped { source: 0, id }),
                Some(value),
                range,
            );
            &&& made matches Ok((after, _)) ==> {
                &&& only_edge_differs(graph, after, k)
                &&& gives_for(after.edges[k].properties, item->Property_key@, value)
                &&& gives_for(after.edges[k].properties, other, was)
                &&& value != QueryModel::Null ==> is_the_users_too(
                    graph.edges[k].contributions,
                    after.edges[k].contributions,
                )
            }
        }),
{
    edge_is_found(graph.edges, id, k, 0);
    what_is_stored_is_read_back(value, range);
    a_change_is_the_users_too(graph.edges[k].contributions);
    if let Ok(found) = stored(value, range) {
        a_changed_property_is_read_back(
            graph.edges[k].properties,
            item->Property_key@,
            found,
            other,
            was,
        );
    }
}

/// A property that is removed gives null from then on. The other properties and every other
/// record stay as they were.
pub proof fn a_removed_property_is_gone(
    graph: GraphModel,
    summary: WriteSummary,
    item: RemoveItem,
    variable: Seq<char>,
    id: LocalNodeId,
    range: SourceRange,
    k: int,
    other: Seq<char>,
    was: QueryModel,
)
    requires
        item is Property,
        node_stands(graph.nodes, id, k),
        other != item->Property_key@,
        gives_for(graph.nodes[k].properties, other, was),
    ensures
        ({
            let made = removed(
                graph,
                summary,
                item,
                variable,
                QueryModel::Node(Scoped { source: 0, id }),
                range,
            );
            &&& made is Ok <==> name_fault(item->Property_key@) is None
            &&& made matches Ok((after, _)) ==> {
                &&& only_node_differs(graph, after, k)
                &&& after.nodes[k].labels == graph.nodes[k].labels
                &&& gives_for(after.nodes[k].properties, item->Property_key@, QueryModel::Null)
                &&& gives_for(after.nodes[k].properties, other, was)
            }
        }),
{
    node_is_found(graph.nodes, id, k, 0);
    a_changed_property_is_read_back(
        graph.nodes[k].properties,
        item->Property_key@,
        None,
        other,
        was,
    );
}

// -- Labels ------------------------------------------------------------------------

proof fn a_label_is_left_out(labels: Seq<Seq<char>>, label: Seq<char>, count: int, one: Seq<char>)
    requires
        0 <= count <= labels.len(),
    ensures
        without_label(labels, label, count).contains(one) <==> one != label && exists|i: int|
            0 <= i < count && #[trigger] labels[i] == one,
    decreases count,
{
    if count > 0 {
        a_label_is_left_out(labels, label, count - 1, one);
        pushed_contains(without_label(labels, label, count - 1), labels[count - 1], one);
        assert(labels[count - 1] == labels[count - 1]);
    }
}

/// A label that is set is carried from then on, beside those that were.
pub proof fn a_set_label_is_carried(
    graph: GraphModel,
    summary: WriteSummary,
    item: SetItem,
    variable: Seq<char>,
    id: LocalNodeId,
    range: SourceRange,
    k: int,
    one: Seq<char>,
)
    requires
        item is Label,
        node_stands(graph.nodes, id, k),
    ensures
        ({
            let made = assigned(
                graph,
                summary,
                item,
                variable,
                QueryModel::Node(Scoped { source: 0, id }),
                None,
                range,
            );
            &&& made is Ok <==> name_fault(item->Label_label@) is None
            &&& made matches Ok((after, _)) ==> {
                &&& only_node_differs(graph, after, k)
                &&& after.nodes[k].properties == graph.nodes[k].properties
                &&& after.nodes[k].labels.contains(one) <==> one == item->Label_label@
                    || graph.nodes[k].labels.contains(one)
            }
        }),
{
    node_is_found(graph.nodes, id, k, 0);
    pushed_contains(graph.nodes[k].labels, item->Label_label@, one);
}

/// A label that is removed is carried no more, and the others are. The last one cannot be
/// removed.
pub proof fn a_removed_label_is_gone(
    graph: GraphModel,
    summary: WriteSummary,
    item: RemoveItem,
    variable: Seq<char>,
    id: LocalNodeId,
    range: SourceRange,
    k: int,
    one: Seq<char>,
)
    requires
        item is Label,
        node_stands(graph.nodes, id, k),
    ensures
        ({
            let labels = graph.nodes[k].labels;
            let made = removed(
                graph,
                summary,
                item,
                variable,
                QueryModel::Node(Scoped { source: 0, id }),
                range,
            );
            &&& made is Ok <==> name_fault(item->Label_label@) is None && labels
                != seq![item->Label_label@]
            &&& made matches Ok((after, _)) ==> {
                &&& only_node_differs(graph, after, k)
                &&& after.nodes[k].properties == graph.nodes[k].properties
                &&& after.nodes[k].labels.contains(one) <==> one != item->Label_label@
                    && labels.contains(one)
            }
        }),
{
    let labels = graph.nodes[k].labels;
    node_is_found(graph.nodes, id, k, 0);
    a_label_is_left_out(labels, item->Label_label@, labels.len() as int, one);
    if labels.len() == 1 && labels.contains(item->Label_label@) {
        assert(labels =~= seq![item->Label_label@]);
    }
    if labels == seq![item->Label_label@] {
        assert(labels[0] == item->Label_label@);
        assert(labels.contains(item->Label_label@));
    }
    if labels.contains(one) {
        let i = choose|i: int| 0 <= i < labels.len() && labels[i] == one;
        assert(labels[i] == one);
    }
}

// -- Deleting ----------------------------------------------------------------------

/// Whether an edge starts or ends at a node of this database.
pub open spec fn is_at(edge: EdgeModel, id: LocalNodeId) -> bool {
    edge.source == ReferenceModel::Local(id) || edge.target == ReferenceModel::Local(id)
}

proof fn an_edge_is_left_out(edges: Seq<EdgeModel>, id: LocalEdgeId, count: int, one: EdgeModel)
    requires
        0 <= count <= edges.len(),
    ensures
        without_edge(edges, id, count).contains(one) <==> one.id != id && exists|i: int|
            0 <= i < count && #[trigger] edges[i] == one,
    decreases count,
{
    if count > 0 {
        an_edge_is_left_out(edges, id, count - 1, one);
        pushed_contains(without_edge(edges, id, count - 1), edges[count - 1], one);
        assert(edges[count - 1] == edges[count - 1]);
    }
}

proof fn a_node_is_left_out(nodes: Seq<NodeModel>, id: LocalNodeId, count: int, one: NodeModel)
    requires
        0 <= count <= nodes.len(),
    ensures
        without_node(nodes, id, count).contains(one) <==> one.id != id && exists|i: int|
            0 <= i < count && #[trigger] nodes[i] == one,
    decreases count,
{
    if count > 0 {
        a_node_is_left_out(nodes, id, count - 1, one);
        pushed_contains(without_node(nodes, id, count - 1), nodes[count - 1], one);
        assert(nodes[count - 1] == nodes[count - 1]);
    }
}

proof fn without_one_edge(edges: Seq<EdgeModel>, id: LocalEdgeId, one: EdgeModel)
    ensures
        without_edge(edges, id, edges.len() as int).contains(one) <==> one.id != id
            && edges.contains(one),
{
    an_edge_is_left_out(edges, id, edges.len() as int, one);
    if edges.contains(one) {
        let i = choose|i: int| 0 <= i < edges.len() && edges[i] == one;
        assert(edges[i] == one);
    }
}

proof fn edges_are_left_out(
    graph: GraphModel,
    summary: WriteSummary,
    ids: Seq<LocalEdgeId>,
    count: int,
    one: EdgeModel,
)
    requires
        0 <= count <= ids.len(),
    ensures
        edges_deleted(graph, summary, ids, count).0.nodes == graph.nodes,
        edges_deleted(graph, summary, ids, count).0.edges.contains(one) <==> graph.edges.contains(
            one,
        ) && forall|i: int| 0 <= i < count ==> #[trigger] ids[i] != one.id,
    decreases count,
{
    if count > 0 {
        edges_are_left_out(graph, summary, ids, count - 1, one);
        let before = edges_deleted(graph, summary, ids, count - 1).0;
        without_one_edge(before.edges, ids[count - 1], one);
    }
}

proof fn incident_edges_are_at(edges: Seq<EdgeModel>, id: LocalNodeId, count: int, one: LocalEdgeId)
    requires
        0 <= count <= edges.len(),
    ensures
        incident(edges, id, count).contains(one) <==> exists|i: int|
            0 <= i < count && (#[trigger] edges[i]).id == one && is_at(edges[i], id),
    decreases count,
{
    if count > 0 {
        incident_edges_are_at(edges, id, count - 1, one);
        pushed_contains(incident(edges, id, count - 1), edges[count - 1].id, one);
        if edges[count - 1].id == one && is_at(edges[count - 1], id) {
            assert(edges[count - 1].id == one);
        }
    }
}

/// A node that is deleted is gone, and every other node is still there. With `DETACH` the edges
/// at it are gone too, and no other edge is. Without, a node with an edge at it is refused.
pub proof fn a_deleted_node_is_gone(
    graph: GraphModel,
    summary: WriteSummary,
    id: LocalNodeId,
    detach: bool,
    range: SourceRange,
    node: NodeModel,
    edge: EdgeModel,
)
    requires
        forall|i: int, j: int|
            0 <= i < j < graph.edges.len() ==> (#[trigger] graph.edges[i]).id != (
            #[trigger] graph.edges[j]).id,
    ensures
        ({
            let made = deleted(
                graph,
                summary,
                QueryModel::Node(Scoped { source: 0, id }),
                detach,
                range,
            );
            &&& made is Ok <==> detach || forall|i: int|
                0 <= i < graph.edges.len() ==> !is_at(#[trigger] graph.edges[i], id)
            &&& made matches Ok((after, _)) ==> {
                &&& after.nodes.contains(node) <==> graph.nodes.contains(node) && node.id != id
                &&& after.edges.contains(edge) <==> graph.edges.contains(edge) && !is_at(edge, id)
            }
        }),
{
    let edges = incident(graph.edges, id, graph.edges.len() as int);
    edges_are_left_out(graph, summary, edges, edges.len() as int, edge);
    let before = edges_deleted(graph, summary, edges, edges.len() as int).0;
    a_node_is_left_out(before.nodes, id, before.nodes.len() as int, node);
    if graph.nodes.contains(node) {
        let i = choose|i: int| 0 <= i < graph.nodes.len() && graph.nodes[i] == node;
        assert(graph.nodes[i] == node);
    }
    if edges.len() > 0 {
        incident_edges_are_at(graph.edges, id, graph.edges.len() as int, edges[0]);
        assert(edges.contains(edges[0]));
    }
    assert forall|i: int| 0 <= i < graph.edges.len() && is_at(#[trigger] graph.edges[i], id) implies edges.len()
        > 0 by {
        incident_edges_are_at(graph.edges, id, graph.edges.len() as int, graph.edges[i].id);
    }
    if graph.edges.contains(edge) {
        let k = choose|k: int| 0 <= k < graph.edges.len() && graph.edges[k] == edge;
        incident_edges_are_at(graph.edges, id, graph.edges.len() as int, edge.id);
        if is_at(edge, id) {
            assert(graph.edges[k].id == edge.id && is_at(graph.edges[k], id));
            assert(edges.contains(edge.id));
            let m = choose|m: int| 0 <= m < edges.len() && edges[m] == edge.id;
            assert(edges[m] == edge.id);
        } else {
            assert forall|m: int| 0 <= m < edges.len() implies #[trigger] edges[m] != edge.id by {
                if edges[m] == edge.id {
                    assert(edges.contains(edge.id));
                    let i = choose|i: int|
                        0 <= i < graph.edges.len() && (#[trigger] graph.edges[i]).id == edge.id
                            && is_at(graph.edges[i], id);
                    if i < k {
                        assert(graph.edges[i].id != graph.edges[k].id);
                    }
                    if k < i {
                        assert(graph.edges[k].id != graph.edges[i].id);
                    }
                }
            }
        }
    }
}

/// A relationship that is deleted is gone, and every other record is still there.
pub proof fn a_deleted_edge_is_gone(
    graph: GraphModel,
    summary: WriteSummary,
    id: LocalEdgeId,
    detach: bool,
    range: SourceRange,
    edge: EdgeModel,
)
    ensures
        deleted(graph, summary, QueryModel::Relationship(Scoped { source: 0, id }), detach, range)
            matches Ok((after, _)) && after.nodes == graph.nodes && (after.edges.contains(edge)
            <==> graph.edges.contains(edge) && edge.id != id),
{
    without_one_edge(graph.edges, id, edge);
}

/// Nothing of another source is changed, and null changes nothing.
pub proof fn only_the_root_is_written(
    graph: GraphModel,
    summary: WriteSummary,
    set: SetItem,
    remove: RemoveItem,
    variable: Seq<char>,
    bound: QueryModel,
    value: Option<QueryModel>,
    detach: bool,
    range: SourceRange,
)
    ensures
        (bound matches QueryModel::Node(handle) && handle.source != 0) || (
        bound matches QueryModel::Relationship(handle) && handle.source != 0) ==> {
            &&& assigned(graph, summary, set, variable, bound, value, range) is Err
            &&& removed(graph, summary, remove, variable, bound, range) is Err
            &&& deleted(graph, summary, bound, detach, range) is Err
        },
        bound == QueryModel::Null ==> {
            let same = Ok::<(GraphModel, WriteSummary), QueryErrorModel>((graph, summary));
            &&& assigned(graph, summary, set, variable, bound, value, range) == same
            &&& removed(graph, summary, remove, variable, bound, range) == same
            &&& deleted(graph, summary, bound, detach, range) == same
        },
        !(bound is Node) && !(bound is Relationship) && bound != QueryModel::Null ==> {
            &&& assigned(graph, summary, set, variable, bound, value, range) is Err
            &&& removed(graph, summary, remove, variable, bound, range) is Err
            &&& deleted(graph, summary, bound, detach, range) is Err
        },
{
}

// -- Creating and merging rows -----------------------------------------------------

/// `CREATE` gives one row for each that it was given.
pub proof fn creating_keeps_the_rows(
    state: Changed,
    patterns: Seq<Pattern>,
    rows: Seq<Scope>,
    values: Seq<Seq<PatternModel>>,
    at: int,
    range: SourceRange,
    minted: Minted,
    before: Seq<Scope>,
)
    requires
        0 <= at <= rows.len(),
    ensures
        rows_created(state, patterns, rows, values, at, range, minted, before) matches Ok((_, found))
            ==> found.len() == before.len() + rows.len() - at && forall|i: int|
            0 <= i < before.len() ==> found[i] == #[trigger] before[i],
    decreases rows.len() - at,
{
    if at < rows.len() {
        let (next, made) = patterns_created(
            with_scope(state, rows[at]),
            patterns,
            values[at],
            0,
            range,
            minted,
        );
        if made is Ok {
            let more = before.push(next.scope);
            creating_keeps_the_rows(
                without_scope(next),
                patterns,
                rows,
                values,
                at + 1,
                range,
                minted,
                more,
            );
            if let Ok((_, found)) = rows_created(
                state,
                patterns,
                rows,
                values,
                at,
                range,
                minted,
                before,
            ) {
                assert forall|i: int| 0 <= i < before.len() implies found[i] == #[trigger] before[i] by {
                    assert(more[i] == before[i]);
                }
            }
        }
    }
}

/// Whether a row finds something for a pattern.
pub open spec fn finds(setting: Setting, graph: GraphModel, pattern: Pattern, row: Scope) -> bool {
    matched(setting.world(graph), pattern, row) matches Ok(found) && found.len() > 0
}

/// `MERGE` creates nothing where every row finds something: the graph and the counts stay, and
/// every match of every row is given.
pub proof fn merging_what_is_there_changes_nothing(
    setting: Setting,
    state: Changed,
    pattern: Pattern,
    rows: Seq<Scope>,
    at: int,
    range: SourceRange,
    minted: Minted,
    before: Seq<Scope>,
    k: int,
    row: Scope,
)
    requires
        0 <= at <= rows.len(),
        forall|i: int|
            at <= i < rows.len() ==> finds(setting, state.graph, pattern, #[trigger] rows[i]),
        at <= k < rows.len() ==> (matched(setting.world(state.graph), pattern, rows[k]) matches Ok(
            found,
        ) && found.contains(row)),
        at > k ==> before.contains(row),
    ensures
        rows_merged(setting, state, pattern, rows, at, range, minted, before) matches Ok((
            after,
            found,
        )) && after == state && (k < rows.len() ==> found.contains(row)),
    decreases rows.len() - at,
{
    if at < rows.len() {
        assert(finds(setting, state.graph, pattern, rows[at]));
        let found = matched(setting.world(state.graph), pattern, rows[at])->Ok_0;
        crate::laws::rows::joined_contains(before, found, row);
        merging_what_is_there_changes_nothing(
            setting,
            state,
            pattern,
            rows,
            at + 1,
            range,
            minted,
            before + found,
            k,
            row,
        );
    }
}

/// `MERGE` creates the pattern for a row that finds nothing, as `CREATE` would.
pub proof fn merging_what_is_not_there_creates_it(
    setting: Setting,
    state: Changed,
    pattern: Pattern,
    row: Scope,
    values: PatternModel,
    range: SourceRange,
    minted: Minted,
)
    requires
        matched(setting.world(state.graph), pattern, row) == Ok::<Seq<Scope>, QueryErrorModel>(
            Seq::empty(),
        ),
        pattern_evaluated(setting.world(state.graph), pattern, row) == Ok::<
            PatternModel,
            QueryErrorModel,
        >(values),
    ensures
        ({
            let (next, made) = pattern_created(
                with_scope(state, row),
                pattern,
                values,
                range,
                minted,
            );
            let merged = rows_merged(
                setting,
                state,
                pattern,
                seq![row],
                0,
                range,
                minted,
                Seq::empty(),
            );
            &&& merged is Ok <==> made is Ok
            &&& merged matches Ok((after, found)) ==> after.graph == next.graph && after.summary
                == next.summary && found == seq![next.scope]
        }),
{
    reveal_with_fuel(rows_merged, 2);
    assert(Seq::<Scope>::empty().push(pattern_created(
        with_scope(state, row),
        pattern,
        values,
        range,
        minted,
    ).0.scope) =~= seq![
        pattern_created(with_scope(state, row), pattern, values, range, minted).0.scope,
    ]);
}

// -- Unions and warnings -----------------------------------------------------------

/// A union without duplicates still has, for every row, one that compares as the same, and has
/// no row that was not there.
pub proof fn a_union_keeps_one_of_each(
    rows: Seq<Seq<QueryModel>>,
    at: int,
    before: Seq<Seq<QueryModel>>,
)
    requires
        0 <= at <= rows.len(),
    ensures
        unique_rows(rows, at, before).len() >= before.len(),
        forall|i: int| 0 <= i < before.len() ==> unique_rows(rows, at, before)[i] == #[trigger] before[i],
        forall|k: int|
            before.len() <= k < unique_rows(rows, at, before).len() ==> rows.contains(
                #[trigger] unique_rows(rows, at, before)[k],
            ),
        forall|i: int|
            at <= i < rows.len() ==> crate::laws::projections::is_represented(
                unique_rows(rows, at, before),
                #[trigger] rows[i],
            ),
    decreases rows.len() - at,
{
    if at < rows.len() {
        let found = unique_rows(rows, at, before);
        crate::laws::projections::seen_means_there(before, before.len() as int, rows[at]);
        if crate::sorting::seen(before, before.len() as int, rows[at]) {
            a_union_keeps_one_of_each(rows, at + 1, before);
            let k = choose|k: int|
                0 <= k < before.len() && crate::value::of_lists(#[trigger] before[k], rows[at], 0)
                    == crate::big::Relation::Same;
            assert(found[k] == before[k]);
            assert(crate::laws::projections::is_represented(found, rows[at]));
        } else {
            let more = before.push(rows[at]);
            a_union_keeps_one_of_each(rows, at + 1, more);
            assert(found[before.len() as int] == more[before.len() as int]);
            crate::laws::projections::same_as_itself(rows[at], 0);
            assert(crate::laws::projections::is_represented(found, rows[at]));
            assert forall|i: int| 0 <= i < before.len() implies found[i] == #[trigger] before[i] by {
                assert(more[i] == before[i]);
            }
        }
    }
}

/// A query is warned of a label exactly where it looks for it and no node carries it.
pub proof fn an_unknown_label_is_warned_of(
    labels: Seq<Seq<char>>,
    nodes: Seq<NodeModel>,
    count: int,
    warning: DiagnosticModel,
)
    requires
        0 <= count <= labels.len(),
    ensures
        label_warnings(labels, nodes, count).contains(warning) <==> exists|i: int|
            0 <= i < count && warning == label_warning(#[trigger] labels[i]) && forall|k: int|
                0 <= k < nodes.len() ==> !(#[trigger] nodes[k]).labels.contains(labels[i]),
    decreases count,
{
    if count > 0 {
        an_unknown_label_is_warned_of(labels, nodes, count - 1, warning);
        let label = labels[count - 1];
        pushed_contains(
            label_warnings(labels, nodes, count - 1),
            label_warning(label),
            warning,
        );
        if !crate::execute::label_present(nodes, label) && warning == label_warning(label) {
            assert forall|k: int| 0 <= k < nodes.len() implies !(
            #[trigger] nodes[k]).labels.contains(label) by {}
            assert(warning == label_warning(labels[count - 1]));
        }
    }
}

} // verus!
