//! What every query keeps, whatever it writes and however it ends, and what its writes go by.

use crate::bindings::found_in;
use crate::clauses::assignments_evaluated;
use crate::clauses::items_evaluated;
use crate::clauses::pattern_evaluated;
use crate::clauses::patterns_evaluated;
use crate::clauses::rows_evaluated;
use crate::clauses::targets_evaluated;
use crate::clauses::Fate;
use crate::contribution::ContributionModel;
use crate::contribution::OwnerModel;
use crate::cypher::Clause;
use crate::cypher::Direction;
use crate::cypher::Expression;
use crate::cypher::NodePattern;
use crate::cypher::Pattern;
use crate::cypher::Query;
use crate::cypher::QueryErrorModel;
use crate::cypher::QueryPart;
use crate::cypher::RelationshipPattern;
use crate::cypher::RemoveItem;
use crate::cypher::SetItem;
use crate::evaluate::evaluated_from;
use crate::evaluate::World;
use crate::evidence::SourceRange;
use crate::execute::clause_run;
use crate::execute::clauses_run;
use crate::execute::items_assigned;
use crate::execute::items_removed;
use crate::execute::part_run;
use crate::execute::parts_run;
use crate::execute::patterns_created;
use crate::execute::query_run;
use crate::execute::questions;
use crate::execute::remove_name;
use crate::execute::rows_assigned;
use crate::execute::rows_created;
use crate::execute::rows_deleted;
use crate::execute::rows_merged;
use crate::execute::rows_removed;
use crate::execute::set_name;
use crate::execute::values_deleted;
use crate::execute::with_scope;
use crate::execute::without_scope;
use crate::execute::Changed;
use crate::execute::Rows;
use crate::execute::Setting;
use crate::execute::Step;
use crate::execute::Table;
use crate::graph::EdgeModel;
use crate::graph::GraphModel;
use crate::graph::NodeModel;
use crate::id::LocalEdgeId;
use crate::id::LocalNodeId;
use crate::matching::matched;
use crate::matching::Scope;
use crate::mutate::assigned;
use crate::mutate::deleted;
use crate::mutate::edge_created;
use crate::mutate::edge_deleted;
use crate::mutate::edge_uses;
use crate::mutate::edges_deleted;
use crate::mutate::incident;
use crate::mutate::label_addition;
use crate::mutate::labels_made;
use crate::mutate::node_created;
use crate::mutate::node_deleted;
use crate::mutate::node_uses;
use crate::mutate::pattern_created;
use crate::mutate::place_fits;
use crate::mutate::place_of;
use crate::mutate::property_changed;
use crate::mutate::removed;
use crate::mutate::steps_created;
use crate::mutate::unused_by_edges;
use crate::mutate::Minted;
use crate::mutate::unused_by_nodes;
use crate::mutate::with_edge;
use crate::mutate::with_node;
use crate::mutate::without_edge;
use crate::mutate::without_label;
use crate::mutate::without_node;
use crate::mutate::stored;
use crate::mutate::PatternModel;
use crate::mutate::Place;
use crate::mutate::WriteSummary;
use crate::mutate::Written;
use crate::nost::convert::with_new;
use crate::property::PropertyModel;
use crate::value::QueryModel;
use vstd::prelude::*;

verus! {

// -- What is kept ------------------------------------------------------------------

/// Whether contributions are those before, all of them and in their places, with nothing
/// behind them but what the user contributed.
pub open spec fn only_user_added(
    before: Seq<ContributionModel>,
    after: Seq<ContributionModel>,
) -> bool {
    &&& before.len() <= after.len()
    &&& forall|i: int| 0 <= i < before.len() ==> after[i] == #[trigger] before[i]
    &&& forall|i: int|
        before.len() <= i < after.len() ==> (#[trigger] after[i]).owner == OwnerModel::User
}

/// Whether a node is new and the user's alone, or was there and only the user added to it.
pub open spec fn node_is_owned(before: Seq<NodeModel>, node: NodeModel) -> bool {
    only_user_added(Seq::empty(), node.contributions) || exists|k: int|
        0 <= k < before.len() && (#[trigger] before[k]).id == node.id && only_user_added(
            before[k].contributions,
            node.contributions,
        )
}

/// Whether an edge is new and the user's alone, or was there and only the user added to it.
pub open spec fn edge_is_owned(before: Seq<EdgeModel>, edge: EdgeModel) -> bool {
    only_user_added(Seq::empty(), edge.contributions) || exists|k: int|
        0 <= k < before.len() && (#[trigger] before[k]).id == edge.id && only_user_added(
            before[k].contributions,
            edge.contributions,
        )
}

/// Whether every record of a graph is owned as it was in another, but for the user.
pub open spec fn ownership_is_kept(before: GraphModel, after: GraphModel) -> bool {
    &&& forall|i: int| 0 <= i < after.nodes.len() ==> node_is_owned(before.nodes, #[trigger] after.nodes[i])
    &&& forall|i: int| 0 <= i < after.edges.len() ==> edge_is_owned(before.edges, #[trigger] after.edges[i])
}

/// Whether every node has a label, and none twice.
pub open spec fn all_labelled(nodes: Seq<NodeModel>) -> bool {
    forall|i: int|
        0 <= i < nodes.len() ==> (#[trigger] nodes[i]).labels.len() > 0
            && nodes[i].labels.no_duplicates()
}

/// Whether no two nodes share an identifier.
pub open spec fn nodes_differ(nodes: Seq<NodeModel>) -> bool {
    forall|i: int, j: int|
        0 <= i < j < nodes.len() ==> (#[trigger] nodes[i]).id != (#[trigger] nodes[j]).id
}

/// Whether no two edges share an identifier.
pub open spec fn edges_differ(edges: Seq<EdgeModel>) -> bool {
    forall|i: int, j: int|
        0 <= i < j < edges.len() ==> (#[trigger] edges[i]).id != (#[trigger] edges[j]).id
}

/// Whether minted bytes are those of identifiers: sixteen each.
pub open spec fn are_identifiers(minted: Minted) -> bool {
    forall|i: int| (#[trigger] minted(i)).len() == 16
}

/// Whether one graph keeps what holds of another: who owns what, that nodes have labels,
/// that identifiers differ, the links and the schemas.
pub open spec fn kept(before: GraphModel, after: GraphModel) -> bool {
    &&& ownership_is_kept(before, after)
    &&& all_labelled(before.nodes) ==> all_labelled(after.nodes)
    &&& nodes_differ(before.nodes) ==> nodes_differ(after.nodes)
    &&& edges_differ(before.edges) ==> edges_differ(after.edges)
    &&& after.links == before.links
    &&& after.schemas == before.schemas
}

proof fn owned_again(nodes: Seq<NodeModel>, edges: Seq<EdgeModel>)
    ensures
        forall|i: int| 0 <= i < nodes.len() ==> node_is_owned(nodes, #[trigger] nodes[i]),
        forall|i: int| 0 <= i < edges.len() ==> edge_is_owned(edges, #[trigger] edges[i]),
{
    assert forall|i: int| 0 <= i < nodes.len() implies node_is_owned(nodes, #[trigger] nodes[i]) by {
        assert(nodes[i].id == nodes[i].id && only_user_added(
            nodes[i].contributions,
            nodes[i].contributions,
        ));
    }
    assert forall|i: int| 0 <= i < edges.len() implies edge_is_owned(edges, #[trigger] edges[i]) by {
        assert(edges[i].id == edges[i].id && only_user_added(
            edges[i].contributions,
            edges[i].contributions,
        ));
    }
}

proof fn kept_as_it_is(graph: GraphModel)
    ensures
        kept(graph, graph),
{
    owned_again(graph.nodes, graph.edges);
}

proof fn added_on(
    first: Seq<ContributionModel>,
    second: Seq<ContributionModel>,
    third: Seq<ContributionModel>,
)
    requires
        only_user_added(first, second),
        only_user_added(second, third),
    ensures
        only_user_added(first, third),
{
    assert forall|i: int| 0 <= i < first.len() implies third[i] == #[trigger] first[i] by {
        assert(second[i] == first[i]);
    }
    assert forall|i: int| first.len() <= i < third.len() implies (#[trigger] third[i]).owner
        == OwnerModel::User by {
        if i < second.len() {
            assert(third[i] == second[i]);
        }
    }
}

proof fn kept_on(first: GraphModel, second: GraphModel, third: GraphModel)
    requires
        kept(first, second),
        kept(second, third),
    ensures
        kept(first, third),
{
    let none = Seq::<ContributionModel>::empty();
    assert forall|i: int| 0 <= i < third.nodes.len() implies node_is_owned(
        first.nodes,
        #[trigger] third.nodes[i],
    ) by {
        let node = third.nodes[i];
        assert(node_is_owned(second.nodes, node));
        if !only_user_added(none, node.contributions) {
            let k = choose|k: int|
                0 <= k < second.nodes.len() && (#[trigger] second.nodes[k]).id == node.id
                    && only_user_added(second.nodes[k].contributions, node.contributions);
            let middle = second.nodes[k];
            assert(node_is_owned(first.nodes, middle));
            if only_user_added(none, middle.contributions) {
                added_on(none, middle.contributions, node.contributions);
            } else {
                let j = choose|j: int|
                    0 <= j < first.nodes.len() && (#[trigger] first.nodes[j]).id == middle.id
                        && only_user_added(first.nodes[j].contributions, middle.contributions);
                added_on(first.nodes[j].contributions, middle.contributions, node.contributions);
            }
        }
    }
    assert forall|i: int| 0 <= i < third.edges.len() implies edge_is_owned(
        first.edges,
        #[trigger] third.edges[i],
    ) by {
        let edge = third.edges[i];
        assert(edge_is_owned(second.edges, edge));
        if !only_user_added(none, edge.contributions) {
            let k = choose|k: int|
                0 <= k < second.edges.len() && (#[trigger] second.edges[k]).id == edge.id
                    && only_user_added(second.edges[k].contributions, edge.contributions);
            let middle = second.edges[k];
            assert(edge_is_owned(first.edges, middle));
            if only_user_added(none, middle.contributions) {
                added_on(none, middle.contributions, edge.contributions);
            } else {
                let j = choose|j: int|
                    0 <= j < first.edges.len() && (#[trigger] first.edges[j]).id == middle.id
                        && only_user_added(first.edges[j].contributions, middle.contributions);
                added_on(first.edges[j].contributions, middle.contributions, edge.contributions);
            }
        }
    }
}

// -- Creating ----------------------------------------------------------------------

proof fn made_labels_differ(
    names: Seq<String>,
    at: int,
    range: SourceRange,
    before: Seq<Seq<char>>,
)
    requires
        0 <= at <= names.len(),
        before.no_duplicates(),
    ensures
        labels_made(names, at, range, before) matches Ok(labels) ==> labels.no_duplicates()
            && labels.len() >= before.len() && (at < names.len() ==> labels.len() > 0),
    decreases names.len() - at,
{
    if at < names.len() {
        let more = with_new(before, names[at]@);
        assert(more.no_duplicates());
        made_labels_differ(names, at + 1, range, more);
    }
}

proof fn unused_node_is_free(nodes: Seq<NodeModel>, minted: Minted, at: int, left: nat)
    ensures
        unused_by_nodes(nodes, minted, at, left) matches Some(found) ==> !node_uses(
            nodes,
            minted(found),
        ),
    decreases left,
{
    if left > 0 && node_uses(nodes, minted(at)) {
        unused_node_is_free(nodes, minted, at + 1, (left - 1) as nat);
    }
}

proof fn unused_edge_is_free(edges: Seq<EdgeModel>, minted: Minted, at: int, left: nat)
    ensures
        unused_by_edges(edges, minted, at, left) matches Some(found) ==> !edge_uses(
            edges,
            minted(found),
        ),
    decreases left,
{
    if left > 0 && edge_uses(edges, minted(at)) {
        unused_edge_is_free(edges, minted, at + 1, (left - 1) as nat);
    }
}

proof fn node_creation_keeps(
    state: Written,
    pattern: NodePattern,
    values: Seq<(Seq<char>, QueryModel)>,
    range: SourceRange,
    minted: Minted,
)
    requires
        are_identifiers(minted),
    ensures
        kept(state.graph, node_created(state, pattern, values, range, minted).0.graph),
{
    kept_as_it_is(state.graph);
    let before = state.graph;
    let after = node_created(state, pattern, values, range, minted).0.graph;
    if after != before {
        made_labels_differ(pattern.labels@, 0, range, Seq::empty());
        unused_node_is_free(before.nodes, minted, state.used, u64::MAX as nat);
        let at = unused_by_nodes(before.nodes, minted, state.used, u64::MAX as nat)->0;
        let made = after.nodes.last();
        LocalNodeId::bytes_are_found(minted(at));
        assert(made.id == LocalNodeId::with_bytes(minted(at)));
        assert(made.id@ == minted(at));
        assert(only_user_added(Seq::empty(), made.contributions));
        assert(node_is_owned(before.nodes, made));
        owned_again(before.nodes, before.edges);
        assert forall|i: int| 0 <= i < after.nodes.len() implies node_is_owned(
            before.nodes,
            #[trigger] after.nodes[i],
        ) by {
            if i < before.nodes.len() {
                assert(after.nodes[i] == before.nodes[i]);
            }
        }
        assert forall|i: int, j: int| nodes_differ(before.nodes) && 0 <= i < j < after.nodes.len() implies (
        #[trigger] after.nodes[i]).id != (#[trigger] after.nodes[j]).id by {
            assert(after.nodes[i] == before.nodes[i]);
            if j < before.nodes.len() {
                assert(after.nodes[j] == before.nodes[j]);
            } else if after.nodes[i].id == made.id {
                assert(before.nodes[i].id@ == minted(at));
            }
        }
        assert(all_labelled(before.nodes) ==> all_labelled(after.nodes)) by {
            if all_labelled(before.nodes) {
                assert forall|i: int| 0 <= i < after.nodes.len() implies (
                #[trigger] after.nodes[i]).labels.len() > 0 && after.nodes[i].labels.no_duplicates() by {
                    if i < before.nodes.len() {
                        assert(after.nodes[i] == before.nodes[i]);
                    }
                }
            }
        }
    }
}

proof fn edge_creation_keeps(
    state: Written,
    pattern: RelationshipPattern,
    from: LocalNodeId,
    to: LocalNodeId,
    values: Seq<(Seq<char>, QueryModel)>,
    range: SourceRange,
    minted: Minted,
)
    requires
        are_identifiers(minted),
    ensures
        kept(state.graph, edge_created(state, pattern, from, to, values, range, minted).0.graph),
{
    kept_as_it_is(state.graph);
    let before = state.graph;
    let after = edge_created(state, pattern, from, to, values, range, minted).0.graph;
    if after != before {
        unused_edge_is_free(before.edges, minted, state.used, u64::MAX as nat);
        let at = unused_by_edges(before.edges, minted, state.used, u64::MAX as nat)->0;
        let made = after.edges.last();
        LocalEdgeId::bytes_are_found(minted(at));
        assert(made.id == LocalEdgeId::with_bytes(minted(at)));
        assert(made.id@ == minted(at));
        assert(only_user_added(Seq::empty(), made.contributions));
        assert(edge_is_owned(before.edges, made));
        owned_again(before.nodes, before.edges);
        assert forall|i: int| 0 <= i < after.edges.len() implies edge_is_owned(
            before.edges,
            #[trigger] after.edges[i],
        ) by {
            if i < before.edges.len() {
                assert(after.edges[i] == before.edges[i]);
            }
        }
        assert forall|i: int, j: int| edges_differ(before.edges) && 0 <= i < j < after.edges.len() implies (
        #[trigger] after.edges[i]).id != (#[trigger] after.edges[j]).id by {
            assert(after.edges[i] == before.edges[i]);
            if j < before.edges.len() {
                assert(after.edges[j] == before.edges[j]);
            } else if after.edges[i].id == made.id {
                assert(before.edges[i].id@ == minted(at));
            }
        }
    }
}

proof fn step_creations_keep(
    state: Written,
    previous: LocalNodeId,
    steps: Seq<(RelationshipPattern, NodePattern)>,
    values: PatternModel,
    at: int,
    range: SourceRange,
    minted: Minted,
)
    requires
        are_identifiers(minted),
    ensures
        kept(
            state.graph,
            steps_created(state, previous, steps, values, at, range, minted).0.graph,
        ),
    decreases steps.len() - at,
{
    if at < 0 || at >= steps.len() {
        kept_as_it_is(state.graph);
    } else {
        let relationship = steps[at].0;
        node_creation_keeps(state, steps[at].1, values.steps[at].1, range, minted);
        if let (next, Ok(target)) = node_created(
            state,
            steps[at].1,
            values.steps[at].1,
            range,
            minted,
        ) {
            if relationship.direction != Direction::Either {
                let out = relationship.direction == Direction::Outgoing;
                let from = if out {
                    previous
                } else {
                    target
                };
                let to = if out {
                    target
                } else {
                    previous
                };
                let first = values.steps[at].0;
                edge_creation_keeps(next, relationship, from, to, first, range, minted);
                let (last, made) = edge_created(next, relationship, from, to, first, range, minted);
                kept_on(state.graph, next.graph, last.graph);
                if made is Ok {
                    step_creations_keep(last, target, steps, values, at + 1, range, minted);
                    kept_on(
                        state.graph,
                        last.graph,
                        steps_created(last, target, steps, values, at + 1, range, minted).0.graph,
                    );
                }
            }
        }
    }
}

proof fn creation_keeps(
    state: Written,
    pattern: Pattern,
    values: PatternModel,
    range: SourceRange,
    minted: Minted,
)
    requires
        are_identifiers(minted),
    ensures
        kept(state.graph, pattern_created(state, pattern, values, range, minted).0.graph),
{
    reveal(pattern_created);
    node_creation_keeps(state, pattern.start, values.start, range, minted);
    if let (next, Ok(first)) = node_created(state, pattern.start, values.start, range, minted) {
        step_creations_keep(next, first, pattern.steps@, values, 0, range, minted);
        kept_on(
            state.graph,
            next.graph,
            steps_created(next, first, pattern.steps@, values, 0, range, minted).0.graph,
        );
    }
}

// -- Changing ----------------------------------------------------------------------

proof fn node_change_keeps(graph: GraphModel, at: int, node: NodeModel)
    requires
        0 <= at < graph.nodes.len(),
        node.id == graph.nodes[at].id,
        only_user_added(graph.nodes[at].contributions, node.contributions),
        graph.nodes[at].labels.len() > 0 && graph.nodes[at].labels.no_duplicates()
            ==> node.labels.len() > 0 && node.labels.no_duplicates(),
    ensures
        kept(graph, with_node(graph, at, node)),
{
    let after = with_node(graph, at, node);
    owned_again(graph.nodes, graph.edges);
    assert forall|i: int| 0 <= i < after.nodes.len() implies node_is_owned(
        graph.nodes,
        #[trigger] after.nodes[i],
    ) by {
        if i == at {
            assert(graph.nodes[at].id == node.id);
        } else {
            assert(after.nodes[i] == graph.nodes[i]);
        }
    }
    assert forall|i: int, j: int| nodes_differ(graph.nodes) && 0 <= i < j < after.nodes.len() implies (
    #[trigger] after.nodes[i]).id != (#[trigger] after.nodes[j]).id by {
        assert(after.nodes[i].id == graph.nodes[i].id && after.nodes[j].id == graph.nodes[j].id);
    }
    assert(all_labelled(graph.nodes) ==> all_labelled(after.nodes)) by {
        if all_labelled(graph.nodes) {
            assert(graph.nodes[at].labels.len() > 0);
            assert forall|i: int| 0 <= i < after.nodes.len() implies (
            #[trigger] after.nodes[i]).labels.len() > 0 && after.nodes[i].labels.no_duplicates() by {
                if i != at {
                    assert(after.nodes[i] == graph.nodes[i]);
                }
            }
        }
    }
}

proof fn edge_change_keeps(graph: GraphModel, at: int, edge: EdgeModel)
    requires
        0 <= at < graph.edges.len(),
        edge.id == graph.edges[at].id,
        only_user_added(graph.edges[at].contributions, edge.contributions),
    ensures
        kept(graph, with_edge(graph, at, edge)),
{
    let after = with_edge(graph, at, edge);
    owned_again(graph.nodes, graph.edges);
    assert forall|i: int| 0 <= i < after.edges.len() implies edge_is_owned(
        graph.edges,
        #[trigger] after.edges[i],
    ) by {
        if i == at {
            assert(graph.edges[at].id == edge.id);
        } else {
            assert(after.edges[i] == graph.edges[i]);
        }
    }
    assert forall|i: int, j: int| edges_differ(graph.edges) && 0 <= i < j < after.edges.len() implies (
    #[trigger] after.edges[i]).id != (#[trigger] after.edges[j]).id by {
        assert(after.edges[i].id == graph.edges[i].id && after.edges[j].id == graph.edges[j].id);
    }
}

proof fn property_change_keeps(
    graph: GraphModel,
    summary: WriteSummary,
    place: Place,
    key: Seq<char>,
    value: Option<PropertyModel>,
)
    requires
        match place {
            Place::Node(at) => 0 <= at < graph.nodes.len(),
            Place::Edge(at) => 0 <= at < graph.edges.len(),
        },
    ensures
        kept(graph, property_changed(graph, summary, place, key, value).0),
{
    let after = property_changed(graph, summary, place, key, value).0;
    match place {
        Place::Node(at) => node_change_keeps(graph, at, after.nodes[at]),
        Place::Edge(at) => edge_change_keeps(graph, at, after.edges[at]),
    }
}

proof fn labels_left(labels: Seq<Seq<char>>, label: Seq<char>, count: int)
    requires
        0 <= count <= labels.len(),
        labels.no_duplicates(),
    ensures
        without_label(labels, label, count).no_duplicates(),
        forall|i: int|
            0 <= i < without_label(labels, label, count).len() ==> exists|k: int|
                0 <= k < count && labels[k] == #[trigger] without_label(labels, label, count)[i],
        forall|k: int|
            0 <= k < count && #[trigger] labels[k] != label ==> without_label(
                labels,
                label,
                count,
            ).len() > 0,
    decreases count,
{
    if count > 0 {
        labels_left(labels, label, count - 1);
        let less = without_label(labels, label, count - 1);
        let all = without_label(labels, label, count);
        assert forall|i: int| 0 <= i < all.len() implies exists|k: int|
            0 <= k < count && labels[k] == #[trigger] all[i] by {
            if i < less.len() {
                assert(all[i] == less[i]);
                let k = choose|k: int| 0 <= k < count - 1 && labels[k] == less[i];
                assert(0 <= k < count && labels[k] == all[i]);
            } else {
                assert(labels[count - 1] == all[i]);
            }
        }
        if labels[count - 1] != label {
            assert(!less.contains(labels[count - 1])) by {
                if less.contains(labels[count - 1]) {
                    let i = choose|i: int| 0 <= i < less.len() && less[i] == labels[count - 1];
                    let k = choose|k: int| 0 <= k < count - 1 && labels[k] == less[i];
                    assert(labels[k] == labels[count - 1]);
                }
            }
        }
    }
}

proof fn assignment_keeps(
    graph: GraphModel,
    summary: WriteSummary,
    item: SetItem,
    variable: Seq<char>,
    bound: QueryModel,
    value: Option<QueryModel>,
    range: SourceRange,
)
    ensures
        assigned(graph, summary, item, variable, bound, value, range) matches Ok((after, _)) ==> kept(
            graph,
            after,
        ),
{
    kept_as_it_is(graph);
    place_fits(graph, variable, bound, range);
    if let Ok((after, _)) = assigned(graph, summary, item, variable, bound, value, range) {
        if bound != QueryModel::Null {
            let place = place_of(graph, variable, bound, range)->Ok_0;
            match item {
                SetItem::Property { key, .. } => {
                    let given = match value {
                        Some(found) => found,
                        None => QueryModel::Null,
                    };
                    let found = stored(given, range)->Ok_0;
                    property_change_keeps(graph, summary, place, key@, found);
                },
                SetItem::Label { label, .. } => {
                    let at = place->Node_0;
                    let labels = graph.nodes[at].labels;
                    let change = label_addition(labels, label@);
                    assert(labels.no_duplicates() ==> change.0.no_duplicates());
                    node_change_keeps(graph, at, after.nodes[at]);
                },
            }
        }
    }
}

proof fn removal_keeps(
    graph: GraphModel,
    summary: WriteSummary,
    item: RemoveItem,
    variable: Seq<char>,
    bound: QueryModel,
    range: SourceRange,
)
    ensures
        removed(graph, summary, item, variable, bound, range) matches Ok((after, _)) ==> kept(
            graph,
            after,
        ),
{
    kept_as_it_is(graph);
    place_fits(graph, variable, bound, range);
    if let Ok((after, _)) = removed(graph, summary, item, variable, bound, range) {
        if bound != QueryModel::Null {
            let place = place_of(graph, variable, bound, range)->Ok_0;
            match item {
                RemoveItem::Property { key, .. } => {
                    property_change_keeps(graph, summary, place, key@, None);
                },
                RemoveItem::Label { label, .. } => {
                    let at = place->Node_0;
                    let labels = graph.nodes[at].labels;
                    if labels.len() > 0 && labels.no_duplicates() {
                        labels_left(labels, label@, labels.len() as int);
                        if labels[0] == label@ {
                            assert(labels.contains(label@));
                            assert(labels[1] != labels[0]);
                        }
                    }
                    node_change_keeps(graph, at, after.nodes[at]);
                },
            }
        }
    }
}

// -- Deleting ----------------------------------------------------------------------

proof fn nodes_left(nodes: Seq<NodeModel>, id: LocalNodeId, count: int)
    requires
        0 <= count <= nodes.len(),
    ensures
        forall|i: int|
            0 <= i < without_node(nodes, id, count).len() ==> exists|k: int|
                0 <= k < count && nodes[k] == #[trigger] without_node(nodes, id, count)[i],
        nodes_differ(nodes) ==> nodes_differ(without_node(nodes, id, count)),
    decreases count,
{
    if count > 0 {
        nodes_left(nodes, id, count - 1);
        let less = without_node(nodes, id, count - 1);
        let all = without_node(nodes, id, count);
        assert forall|i: int| 0 <= i < all.len() implies exists|k: int|
            0 <= k < count && nodes[k] == #[trigger] all[i] by {
            if i < less.len() {
                assert(all[i] == less[i]);
                let k = choose|k: int| 0 <= k < count - 1 && nodes[k] == less[i];
                assert(0 <= k < count && nodes[k] == all[i]);
            } else {
                assert(nodes[count - 1] == all[i]);
            }
        }
        assert forall|i: int, j: int| nodes_differ(nodes) && 0 <= i < j < all.len() implies (
        #[trigger] all[i]).id != (#[trigger] all[j]).id by {
            assert(all[i] == less[i]);
            if j < less.len() {
                assert(all[j] == less[j]);
            } else {
                let k = choose|k: int| 0 <= k < count - 1 && nodes[k] == less[i];
                assert(nodes[k].id != nodes[count - 1].id);
            }
        }
    }
}

proof fn edges_left(edges: Seq<EdgeModel>, id: LocalEdgeId, count: int)
    requires
        0 <= count <= edges.len(),
    ensures
        forall|i: int|
            0 <= i < without_edge(edges, id, count).len() ==> exists|k: int|
                0 <= k < count && edges[k] == #[trigger] without_edge(edges, id, count)[i],
        edges_differ(edges) ==> edges_differ(without_edge(edges, id, count)),
    decreases count,
{
    if count > 0 {
        edges_left(edges, id, count - 1);
        let less = without_edge(edges, id, count - 1);
        let all = without_edge(edges, id, count);
        assert forall|i: int| 0 <= i < all.len() implies exists|k: int|
            0 <= k < count && edges[k] == #[trigger] all[i] by {
            if i < less.len() {
                assert(all[i] == less[i]);
                let k = choose|k: int| 0 <= k < count - 1 && edges[k] == less[i];
                assert(0 <= k < count && edges[k] == all[i]);
            } else {
                assert(edges[count - 1] == all[i]);
            }
        }
        assert forall|i: int, j: int| edges_differ(edges) && 0 <= i < j < all.len() implies (
        #[trigger] all[i]).id != (#[trigger] all[j]).id by {
            assert(all[i] == less[i]);
            if j < less.len() {
                assert(all[j] == less[j]);
            } else {
                let k = choose|k: int| 0 <= k < count - 1 && edges[k] == less[i];
                assert(edges[k].id != edges[count - 1].id);
            }
        }
    }
}

proof fn edge_deletion_keeps(graph: GraphModel, summary: WriteSummary, id: LocalEdgeId)
    ensures
        kept(graph, edge_deleted(graph, summary, id).0),
{
    let after = edge_deleted(graph, summary, id).0;
    owned_again(graph.nodes, graph.edges);
    edges_left(graph.edges, id, graph.edges.len() as int);
    assert forall|i: int| 0 <= i < after.edges.len() implies edge_is_owned(
        graph.edges,
        #[trigger] after.edges[i],
    ) by {
        let k = choose|k: int| 0 <= k < graph.edges.len() && graph.edges[k] == after.edges[i];
        assert(edge_is_owned(graph.edges, graph.edges[k]));
    }
}

proof fn edge_deletions_keep(
    graph: GraphModel,
    summary: WriteSummary,
    ids: Seq<LocalEdgeId>,
    count: int,
)
    ensures
        kept(graph, edges_deleted(graph, summary, ids, count).0),
    decreases count,
{
    if count <= 0 {
        kept_as_it_is(graph);
    } else {
        edge_deletions_keep(graph, summary, ids, count - 1);
        let (before, counts) = edges_deleted(graph, summary, ids, count - 1);
        edge_deletion_keeps(before, counts, ids[count - 1]);
        kept_on(graph, before, edge_deleted(before, counts, ids[count - 1]).0);
    }
}

proof fn node_deletion_keeps(graph: GraphModel, summary: WriteSummary, id: LocalNodeId)
    ensures
        kept(graph, node_deleted(graph, summary, id).0),
{
    let after = node_deleted(graph, summary, id).0;
    owned_again(graph.nodes, graph.edges);
    nodes_left(graph.nodes, id, graph.nodes.len() as int);
    assert forall|i: int| 0 <= i < after.nodes.len() implies node_is_owned(
        graph.nodes,
        #[trigger] after.nodes[i],
    ) by {
        let k = choose|k: int| 0 <= k < graph.nodes.len() && graph.nodes[k] == after.nodes[i];
        assert(node_is_owned(graph.nodes, graph.nodes[k]));
    }
    assert(all_labelled(graph.nodes) ==> all_labelled(after.nodes)) by {
        if all_labelled(graph.nodes) {
            assert forall|i: int| 0 <= i < after.nodes.len() implies (
            #[trigger] after.nodes[i]).labels.len() > 0 && after.nodes[i].labels.no_duplicates() by {
                let k = choose|k: int|
                    0 <= k < graph.nodes.len() && graph.nodes[k] == after.nodes[i];
                assert(graph.nodes[k].labels.len() > 0);
            }
        }
    }
}

proof fn deletion_keeps(
    graph: GraphModel,
    summary: WriteSummary,
    bound: QueryModel,
    detach: bool,
    range: SourceRange,
)
    ensures
        deleted(graph, summary, bound, detach, range) matches Ok((after, _)) ==> kept(graph, after),
{
    kept_as_it_is(graph);
    if deleted(graph, summary, bound, detach, range) is Ok {
        match bound {
            QueryModel::Node(handle) => {
                let edges = incident(graph.edges, handle.id, graph.edges.len() as int);
                let (before, counts) = edges_deleted(graph, summary, edges, edges.len() as int);
                edge_deletions_keep(graph, summary, edges, edges.len() as int);
                node_deletion_keeps(before, counts, handle.id);
                kept_on(graph, before, node_deleted(before, counts, handle.id).0);
            },
            QueryModel::Relationship(handle) => edge_deletion_keeps(graph, summary, handle.id),
            _ => {},
        }
    }
}

// -- Queries -----------------------------------------------------------------------

/// The graph a step leaves, whether it was refused or not.
pub open spec fn left_by<T>(step: Step<T>) -> GraphModel {
    match step {
        Ok((next, _)) => next.graph,
        Err((graph, _)) => graph,
    }
}

proof fn pattern_creations_keep(
    state: Written,
    patterns: Seq<Pattern>,
    values: Seq<PatternModel>,
    at: int,
    range: SourceRange,
    minted: Minted,
)
    requires
        are_identifiers(minted),
    ensures
        kept(
            state.graph,
            patterns_created(state, patterns, values, at, range, minted).0.graph,
        ),
    decreases patterns.len() - at,
{
    if at < 0 || at >= patterns.len() {
        kept_as_it_is(state.graph);
    } else {
        creation_keeps(state, patterns[at], values[at], range, minted);
        let (next, made) = pattern_created(state, patterns[at], values[at], range, minted);
        if made is Ok {
            pattern_creations_keep(next, patterns, values, at + 1, range, minted);
            let last = patterns_created(next, patterns, values, at + 1, range, minted).0;
            kept_on(state.graph, next.graph, last.graph);
        }
    }
}

proof fn row_creations_keep(
    state: Changed,
    patterns: Seq<Pattern>,
    rows: Seq<Scope>,
    values: Seq<Seq<PatternModel>>,
    at: int,
    range: SourceRange,
    minted: Minted,
    before: Seq<Scope>,
)
    requires
        are_identifiers(minted),
    ensures
        kept(
            state.graph,
            left_by(rows_created(state, patterns, rows, values, at, range, minted, before)),
        ),
    decreases rows.len() - at,
{
    if at < 0 || at >= rows.len() {
        kept_as_it_is(state.graph);
    } else {
        let first = with_scope(state, rows[at]);
        pattern_creations_keep(first, patterns, values[at], 0, range, minted);
        let (next, made) = patterns_created(first, patterns, values[at], 0, range, minted);
        if made is Ok {
            let then = without_scope(next);
            let more = before.push(next.scope);
            row_creations_keep(then, patterns, rows, values, at + 1, range, minted, more);
            kept_on(
                state.graph,
                then.graph,
                left_by(rows_created(then, patterns, rows, values, at + 1, range, minted, more)),
            );
        }
    }
}

proof fn merges_keep(
    setting: Setting,
    state: Changed,
    pattern: Pattern,
    rows: Seq<Scope>,
    at: int,
    range: SourceRange,
    minted: Minted,
    before: Seq<Scope>,
)
    requires
        are_identifiers(minted),
    ensures
        kept(
            state.graph,
            left_by(rows_merged(setting, state, pattern, rows, at, range, minted, before)),
        ),
    decreases rows.len() - at,
{
    kept_as_it_is(state.graph);
    if 0 <= at < rows.len() {
        let world = setting.world(state.graph);
        if let Ok(found) = matched(world, pattern, rows[at]) {
            if found.len() > 0 {
                let more = before + found;
                merges_keep(setting, state, pattern, rows, at + 1, range, minted, more);
            } else if let Ok(values) = pattern_evaluated(world, pattern, rows[at]) {
                let first = with_scope(state, rows[at]);
                creation_keeps(first, pattern, values, range, minted);
                let (next, made) = pattern_created(first, pattern, values, range, minted);
                if made is Ok {
                    let then = without_scope(next);
                    let more = before.push(next.scope);
                    merges_keep(setting, then, pattern, rows, at + 1, range, minted, more);
                    kept_on(
                        state.graph,
                        then.graph,
                        left_by(
                            rows_merged(setting, then, pattern, rows, at + 1, range, minted, more),
                        ),
                    );
                }
            }
        }
    }
}

proof fn item_assignments_keep(
    state: Changed,
    items: Seq<SetItem>,
    row: Scope,
    values: Seq<Option<QueryModel>>,
    at: int,
    range: SourceRange,
)
    ensures
        kept(state.graph, left_by(items_assigned(state, items, row, values, at, range))),
    decreases items.len() - at,
{
    kept_as_it_is(state.graph);
    if 0 <= at < items.len() {
        let name = set_name(items[at]);
        if let Some(bound) = found_in(row, name) {
            let (graph, summary) = (state.graph, state.summary);
            assignment_keeps(graph, summary, items[at], name, bound, values[at], range);
            if let Ok((after, counts)) = assigned(
                graph,
                summary,
                items[at],
                name,
                bound,
                values[at],
                range,
            ) {
                let next = Changed { graph: after, summary: counts, ..state };
                item_assignments_keep(next, items, row, values, at + 1, range);
                kept_on(
                    state.graph,
                    after,
                    left_by(items_assigned(next, items, row, values, at + 1, range)),
                );
            }
        }
    }
}

proof fn row_assignments_keep(
    state: Changed,
    items: Seq<SetItem>,
    rows: Seq<Scope>,
    values: Seq<Seq<Option<QueryModel>>>,
    at: int,
    range: SourceRange,
)
    ensures
        kept(state.graph, left_by(rows_assigned(state, items, rows, values, at, range))),
    decreases rows.len() - at,
{
    kept_as_it_is(state.graph);
    if 0 <= at < rows.len() {
        item_assignments_keep(state, items, rows[at], values[at], 0, range);
        if let Ok((next, _)) = items_assigned(state, items, rows[at], values[at], 0, range) {
            row_assignments_keep(next, items, rows, values, at + 1, range);
            kept_on(
                state.graph,
                next.graph,
                left_by(rows_assigned(next, items, rows, values, at + 1, range)),
            );
        }
    }
}

proof fn item_removals_keep(
    state: Changed,
    items: Seq<RemoveItem>,
    row: Scope,
    at: int,
    range: SourceRange,
)
    ensures
        kept(state.graph, left_by(items_removed(state, items, row, at, range))),
    decreases items.len() - at,
{
    kept_as_it_is(state.graph);
    if 0 <= at < items.len() {
        let name = remove_name(items[at]);
        if let Some(bound) = found_in(row, name) {
            removal_keeps(state.graph, state.summary, items[at], name, bound, range);
            if let Ok((graph, summary)) = removed(
                state.graph,
                state.summary,
                items[at],
                name,
                bound,
                range,
            ) {
                let next = Changed { graph, summary, ..state };
                item_removals_keep(next, items, row, at + 1, range);
                kept_on(state.graph, graph, left_by(items_removed(next, items, row, at + 1, range)));
            }
        }
    }
}

proof fn row_removals_keep(
    state: Changed,
    items: Seq<RemoveItem>,
    rows: Seq<Scope>,
    at: int,
    range: SourceRange,
)
    ensures
        kept(state.graph, left_by(rows_removed(state, items, rows, at, range))),
    decreases rows.len() - at,
{
    kept_as_it_is(state.graph);
    if 0 <= at < rows.len() {
        item_removals_keep(state, items, rows[at], 0, range);
        if let Ok((next, _)) = items_removed(state, items, rows[at], 0, range) {
            row_removals_keep(next, items, rows, at + 1, range);
            kept_on(
                state.graph,
                next.graph,
                left_by(rows_removed(next, items, rows, at + 1, range)),
            );
        }
    }
}

proof fn value_deletions_keep(
    state: Changed,
    values: Seq<QueryModel>,
    at: int,
    detach: bool,
    range: SourceRange,
)
    ensures
        kept(state.graph, left_by(values_deleted(state, values, at, detach, range))),
    decreases values.len() - at,
{
    kept_as_it_is(state.graph);
    if 0 <= at < values.len() {
        deletion_keeps(state.graph, state.summary, values[at], detach, range);
        if let Ok((graph, summary)) = deleted(
            state.graph,
            state.summary,
            values[at],
            detach,
            range,
        ) {
            let next = Changed { graph, summary, ..state };
            value_deletions_keep(next, values, at + 1, detach, range);
            kept_on(state.graph, graph, left_by(values_deleted(next, values, at + 1, detach, range)));
        }
    }
}

proof fn row_deletions_keep(
    state: Changed,
    values: Seq<Seq<QueryModel>>,
    at: int,
    detach: bool,
    range: SourceRange,
)
    ensures
        kept(state.graph, left_by(rows_deleted(state, values, at, detach, range))),
    decreases values.len() - at,
{
    kept_as_it_is(state.graph);
    if 0 <= at < values.len() {
        value_deletions_keep(state, values[at], 0, detach, range);
        if let Ok((next, _)) = values_deleted(state, values[at], 0, detach, range) {
            row_deletions_keep(next, values, at + 1, detach, range);
            kept_on(
                state.graph,
                next.graph,
                left_by(rows_deleted(next, values, at + 1, detach, range)),
            );
        }
    }
}

proof fn clause_keeps(
    setting: Setting,
    state: Changed,
    rows: Seq<Scope>,
    clause: Clause,
    asked: int,
    fate: Fate,
)
    requires
        are_identifiers(fate.minted),
    ensures
        kept(state.graph, left_by(clause_run(setting, state, rows, clause, asked, fate))),
{
    reveal(clause_run);
    kept_as_it_is(state.graph);
    let world = setting.world(state.graph);
    let none = Seq::<Scope>::empty();
    match clause {
        Clause::Create { patterns, range } => {
            if let Ok(values) = rows_evaluated(world, patterns@, rows, 0, Seq::empty()) {
                row_creations_keep(state, patterns@, rows, values, 0, range, fate.minted, none);
            }
        },
        Clause::Merge { pattern, range } => {
            merges_keep(setting, state, pattern, rows, 0, range, fate.minted, none);
        },
        Clause::Assign { items, range } => {
            if let Ok(values) = assignments_evaluated(world, items@, rows, 0, Seq::empty()) {
                row_assignments_keep(state, items@, rows, values, 0, range);
            }
        },
        Clause::Remove { items, range } => {
            row_removals_keep(state, items@, rows, 0, range);
        },
        Clause::Delete { detach, targets, range } => {
            if let Ok(values) = targets_evaluated(world, targets@, rows, 0, Seq::empty()) {
                row_deletions_keep(state, values, 0, detach, range);
            }
        },
        _ => {},
    }
}

proof fn clauses_keep(
    setting: Setting,
    state: Changed,
    left: Rows,
    clauses: Seq<Clause>,
    at: int,
    asked: int,
    fate: Fate,
)
    requires
        are_identifiers(fate.minted),
    ensures
        kept(state.graph, left_by(clauses_run(setting, state, left, clauses, at, asked, fate))),
    decreases clauses.len() - at,
{
    kept_as_it_is(state.graph);
    if 0 <= at < clauses.len() {
        clause_keeps(setting, state, left.0, clauses[at], asked + 1, fate);
        if let Ok((next, found)) = clause_run(
            setting,
            state,
            left.0,
            clauses[at],
            asked + 1,
            fate,
        ) {
            let later = asked + 1 + questions(clauses[at], left.0.len() as int);
            clauses_keep(setting, next, found, clauses, at + 1, later, fate);
            kept_on(
                state.graph,
                next.graph,
                left_by(clauses_run(setting, next, found, clauses, at + 1, later, fate)),
            );
        }
    }
}

proof fn part_keeps(setting: Setting, state: Changed, part: QueryPart, asked: int, fate: Fate)
    requires
        are_identifiers(fate.minted),
    ensures
        kept(state.graph, left_by(part_run(setting, state, part, asked, fate))),
{
    reveal(part_run);
    let start = (seq![Map::empty()], None);
    clauses_keep(setting, state, start, part.clauses@, 0, asked, fate);
}

proof fn parts_keep(
    setting: Setting,
    state: Changed,
    parts: Seq<QueryPart>,
    at: int,
    asked: int,
    before: Table,
    fate: Fate,
)
    requires
        are_identifiers(fate.minted),
    ensures
        kept(state.graph, left_by(parts_run(setting, state, parts, at, asked, before, fate))),
    decreases parts.len() - at,
{
    kept_as_it_is(state.graph);
    if 0 <= at < parts.len() {
        part_keeps(setting, state, parts[at], asked + 1, fate);
        if let Ok((next, (table, count))) = part_run(setting, state, parts[at], asked + 1, fate) {
            let more = (
                if at == 0 {
                    table.0
                } else {
                    before.0
                },
                before.1 + table.1,
            );
            parts_keep(setting, next, parts, at + 1, count, more, fate);
            kept_on(
                state.graph,
                next.graph,
                left_by(parts_run(setting, next, parts, at + 1, count, more, fate)),
            );
        }
    }
}

/// Whatever a query writes, and also where it is refused half way, it keeps these: a record
/// that was there has every contribution it had, with at most the user's behind them, and a
/// record that is new is the user's alone, so that no query makes anything an analyzer's or
/// an AI's; where every node had a label, and none twice, every node has; where identifiers
/// differed, they differ; and the links and the schemas are what they were.
pub proof fn queries_keep(query: Query, graph: GraphModel, setting: Setting, fate: Fate)
    requires
        are_identifiers(fate.minted),
    ensures
        kept(graph, query_run(query, graph, setting, fate).0),
{
    reveal(query_run);
    parts_keep(
        setting,
        Changed { graph, summary: WriteSummary::nothing(), used: 0 },
        query.parts@,
        0,
        0,
        (Seq::empty(), Seq::empty()),
        fate,
    );
}

// -- What a write reads ------------------------------------------------------------

/// Whether values are what the rows assign, read against one graph.
pub open spec fn assigned_by_rows(
    world: World,
    items: Seq<SetItem>,
    rows: Seq<Scope>,
    values: Seq<Seq<Option<QueryModel>>>,
) -> bool {
    values.len() == rows.len() && forall|i: int|
        0 <= i < rows.len() ==> items_evaluated(world, items, 0, #[trigger] rows[i], Seq::empty())
            == Ok::<_, QueryErrorModel>(values[i])
}

/// Whether values are what the rows give patterns to create, read against one graph.
pub open spec fn created_by_rows(
    world: World,
    patterns: Seq<Pattern>,
    rows: Seq<Scope>,
    values: Seq<Seq<PatternModel>>,
) -> bool {
    values.len() == rows.len() && forall|i: int|
        0 <= i < rows.len() ==> patterns_evaluated(
            world,
            patterns,
            0,
            #[trigger] rows[i],
            Seq::empty(),
        ) == Ok::<_, QueryErrorModel>(values[i])
}

/// Whether values are what the rows name to delete, read against one graph.
pub open spec fn named_by_rows(
    world: World,
    targets: Seq<Expression>,
    rows: Seq<Scope>,
    values: Seq<Seq<QueryModel>>,
) -> bool {
    values.len() == rows.len() && forall|i: int|
        0 <= i < rows.len() ==> evaluated_from(
            world,
            targets,
            0,
            #[trigger] rows[i],
            None,
            Seq::empty(),
        ) == Ok::<_, QueryErrorModel>(values[i])
}

/// Whether a step was taken and left this.
pub open spec fn left_as<T>(step: Step<T>, next: Changed) -> bool {
    step matches Ok((after, _)) && after == next
}

proof fn assignments_read_rows(
    world: World,
    items: Seq<SetItem>,
    rows: Seq<Scope>,
    at: int,
    before: Seq<Seq<Option<QueryModel>>>,
)
    requires
        0 <= at <= rows.len(),
        assigned_by_rows(world, items, rows.take(at), before),
    ensures
        assignments_evaluated(world, items, rows, at, before) matches Ok(values)
            ==> assigned_by_rows(world, items, rows, values),
    decreases rows.len() - at,
{
    assert forall|i: int| 0 <= i < at implies items_evaluated(
        world,
        items,
        0,
        #[trigger] rows[i],
        Seq::empty(),
    ) == Ok::<_, QueryErrorModel>(before[i]) by {
        assert(rows.take(at)[i] == rows[i]);
    }
    if at < rows.len() {
        if let Ok(found) = items_evaluated(world, items, 0, rows[at], Seq::empty()) {
            let more = before.push(found);
            assert forall|i: int| 0 <= i < at + 1 implies items_evaluated(
                world,
                items,
                0,
                #[trigger] rows.take(at + 1)[i],
                Seq::empty(),
            ) == Ok::<_, QueryErrorModel>(more[i]) by {
                assert(rows.take(at + 1)[i] == rows[i]);
            }
            assignments_read_rows(world, items, rows, at + 1, more);
        }
    }
}

proof fn creations_read_rows(
    world: World,
    patterns: Seq<Pattern>,
    rows: Seq<Scope>,
    at: int,
    before: Seq<Seq<PatternModel>>,
)
    requires
        0 <= at <= rows.len(),
        created_by_rows(world, patterns, rows.take(at), before),
    ensures
        rows_evaluated(world, patterns, rows, at, before) matches Ok(values) ==> created_by_rows(
            world,
            patterns,
            rows,
            values,
        ),
    decreases rows.len() - at,
{
    assert forall|i: int| 0 <= i < at implies patterns_evaluated(
        world,
        patterns,
        0,
        #[trigger] rows[i],
        Seq::empty(),
    ) == Ok::<_, QueryErrorModel>(before[i]) by {
        assert(rows.take(at)[i] == rows[i]);
    }
    if at < rows.len() {
        if let Ok(found) = patterns_evaluated(world, patterns, 0, rows[at], Seq::empty()) {
            let more = before.push(found);
            assert forall|i: int| 0 <= i < at + 1 implies patterns_evaluated(
                world,
                patterns,
                0,
                #[trigger] rows.take(at + 1)[i],
                Seq::empty(),
            ) == Ok::<_, QueryErrorModel>(more[i]) by {
                assert(rows.take(at + 1)[i] == rows[i]);
            }
            creations_read_rows(world, patterns, rows, at + 1, more);
        }
    }
}

proof fn deletions_read_rows(
    world: World,
    targets: Seq<Expression>,
    rows: Seq<Scope>,
    at: int,
    before: Seq<Seq<QueryModel>>,
)
    requires
        0 <= at <= rows.len(),
        named_by_rows(world, targets, rows.take(at), before),
    ensures
        targets_evaluated(world, targets, rows, at, before) matches Ok(values) ==> named_by_rows(
            world,
            targets,
            rows,
            values,
        ),
    decreases rows.len() - at,
{
    assert forall|i: int| 0 <= i < at implies evaluated_from(
        world,
        targets,
        0,
        #[trigger] rows[i],
        None,
        Seq::empty(),
    ) == Ok::<_, QueryErrorModel>(before[i]) by {
        assert(rows.take(at)[i] == rows[i]);
    }
    if at < rows.len() {
        if let Ok(found) = evaluated_from(world, targets, 0, rows[at], None, Seq::empty()) {
            let more = before.push(found);
            assert forall|i: int| 0 <= i < at + 1 implies evaluated_from(
                world,
                targets,
                0,
                #[trigger] rows.take(at + 1)[i],
                None,
                Seq::empty(),
            ) == Ok::<_, QueryErrorModel>(more[i]) by {
                assert(rows.take(at + 1)[i] == rows[i]);
            }
            deletions_read_rows(world, targets, rows, at + 1, more);
        }
    }
}

/// A `SET` reads before it writes: what it assigns in each row is what the row says of the
/// graph as the clause found it, so that what one row writes changes nothing that another row
/// assigns.
pub proof fn assignments_read_first(
    setting: Setting,
    state: Changed,
    rows: Seq<Scope>,
    items: Vec<SetItem>,
    range: SourceRange,
    asked: int,
    fate: Fate,
)
    ensures
        clause_run(setting, state, rows, Clause::Assign { items, range }, asked, fate) matches Ok(
            (next, _),
        ) ==> exists|values: Seq<Seq<Option<QueryModel>>>|
            assigned_by_rows(setting.world(state.graph), items@, rows, values) && left_as(
                #[trigger] rows_assigned(state, items@, rows, values, 0, range),
                next,
            ),
{
    reveal(clause_run);
    let world = setting.world(state.graph);
    assert(rows.take(0) =~= Seq::<Scope>::empty());
    assignments_read_rows(world, items@, rows, 0, Seq::empty());
    if let Ok((next, _)) = clause_run(
        setting,
        state,
        rows,
        Clause::Assign { items, range },
        asked,
        fate,
    ) {
        let values = assignments_evaluated(world, items@, rows, 0, Seq::empty())->Ok_0;
        assert(left_as(rows_assigned(state, items@, rows, values, 0, range), next));
    }
}

/// A `CREATE` reads before it writes: what it gives the records of each row is what the row
/// says of the graph as the clause found it.
pub proof fn creations_read_first(
    setting: Setting,
    state: Changed,
    rows: Seq<Scope>,
    patterns: Vec<Pattern>,
    range: SourceRange,
    asked: int,
    fate: Fate,
)
    ensures
        clause_run(setting, state, rows, Clause::Create { patterns, range }, asked, fate) matches Ok(
            (next, (left, _)),
        ) ==> exists|values: Seq<Seq<PatternModel>>|
            created_by_rows(setting.world(state.graph), patterns@, rows, values) && #[trigger]
                rows_created(
                state,
                patterns@,
                rows,
                values,
                0,
                range,
                fate.minted,
                Seq::empty(),
            ) == Ok::<_, (GraphModel, QueryErrorModel)>((next, left)),
{
    reveal(clause_run);
    let world = setting.world(state.graph);
    assert(rows.take(0) =~= Seq::<Scope>::empty());
    creations_read_rows(world, patterns@, rows, 0, Seq::empty());
    if let Ok((next, (left, _))) = clause_run(
        setting,
        state,
        rows,
        Clause::Create { patterns, range },
        asked,
        fate,
    ) {
        let values = rows_evaluated(world, patterns@, rows, 0, Seq::empty())->Ok_0;
        assert(rows_created(
            state,
            patterns@,
            rows,
            values,
            0,
            range,
            fate.minted,
            Seq::empty(),
        ) == Ok::<_, (GraphModel, QueryErrorModel)>((next, left)));
    }
}

/// A `DELETE` reads before it writes: what it deletes in each row is what the row names in
/// the graph as the clause found it.
pub proof fn deletions_read_first(
    setting: Setting,
    state: Changed,
    rows: Seq<Scope>,
    detach: bool,
    targets: Vec<Expression>,
    range: SourceRange,
    asked: int,
    fate: Fate,
)
    ensures
        clause_run(
            setting,
            state,
            rows,
            Clause::Delete { detach, targets, range },
            asked,
            fate,
        ) matches Ok((next, _)) ==> exists|values: Seq<Seq<QueryModel>>|
            named_by_rows(setting.world(state.graph), targets@, rows, values) && left_as(
                #[trigger] rows_deleted(state, values, 0, detach, range),
                next,
            ),
{
    reveal(clause_run);
    let world = setting.world(state.graph);
    assert(rows.take(0) =~= Seq::<Scope>::empty());
    deletions_read_rows(world, targets@, rows, 0, Seq::empty());
    if let Ok((next, _)) = clause_run(
        setting,
        state,
        rows,
        Clause::Delete { detach, targets, range },
        asked,
        fate,
    ) {
        let values = targets_evaluated(world, targets@, rows, 0, Seq::empty())->Ok_0;
        assert(left_as(rows_deleted(state, values, 0, detach, range), next));
    }
}

} // verus!
