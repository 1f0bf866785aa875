//! What creating, setting, removing and deleting do to a graph.

use crate::cypher::Direction;
use crate::cypher::NodePattern;
use crate::cypher::Pattern;
use crate::cypher::QueryErrorModel;
use crate::cypher::RelationshipPattern;
use crate::evaluate::property_at;
use crate::evidence::SourceRange;
use crate::graph::EdgeModel;
use crate::graph::NodeModel;
use crate::graph::ReferenceModel;
use crate::id::LocalEdgeId;
use crate::id::LocalNodeId;
use crate::keeping::are_identifiers;
use crate::laws::matching::first_is_found;
use crate::laws::rows::pushed_contains;
use crate::mutate::edge_created;
use crate::mutate::edge_uses;
use crate::mutate::labels_made;
use crate::mutate::node_created;
use crate::mutate::node_uses;
use crate::mutate::pattern_created;
use crate::mutate::property_change;
use crate::mutate::removed;
use crate::mutate::steps_created;
use crate::mutate::stored;
use crate::mutate::stored_items;
use crate::mutate::stored_map;
use crate::mutate::unused_by_edges;
use crate::mutate::unused_by_nodes;
use crate::mutate::user_entry;
use crate::mutate::without_key;
use crate::mutate::Minted;
use crate::mutate::PatternModel;
use crate::mutate::Written;
use crate::nost::convert::with_new;
use crate::property::PropertyModel;
use crate::property::ScalarModel;
use crate::value::of_property;
use crate::value::of_scalar;
use crate::value::QueryModel;
use crate::value::Scoped;
use vstd::prelude::*;

verus! {

// -- Stored values -----------------------------------------------------------------

proof fn items_are_read_back(
    items: Seq<QueryModel>,
    at: int,
    range: SourceRange,
    before: Seq<ScalarModel>,
)
    requires
        0 <= at <= items.len(),
        before.len() == at,
        forall|i: int| 0 <= i < at ==> of_scalar(#[trigger] before[i]) == items[i],
    ensures
        stored_items(items, at, range, before) matches Ok(found) ==> found.len() == items.len()
            && forall|i: int| 0 <= i < items.len() ==> of_scalar(#[trigger] found[i]) == items[i],
    decreases items.len() - at,
{
    if at < items.len() {
        if let Some(scalar) = crate::mutate::stored_scalar(items[at]) {
            items_are_read_back(items, at + 1, range, before.push(scalar));
        }
    }
}

proof fn scalars_are_stored(
    items: Seq<QueryModel>,
    at: int,
    range: SourceRange,
    before: Seq<ScalarModel>,
)
    requires
        0 <= at <= items.len(),
    ensures
        stored_items(items, at, range, before) is Ok <==> forall|i: int|
            at <= i < items.len() ==> is_scalar(#[trigger] items[i]),
    decreases items.len() - at,
{
    if at < items.len() {
        assert(crate::mutate::stored_scalar(items[at]) is Some <==> is_scalar(items[at]));
        if let Some(scalar) = crate::mutate::stored_scalar(items[at]) {
            scalars_are_stored(items, at + 1, range, before.push(scalar));
        }
    }
}

/// Whether a value is a truth value, a number or a text.
pub open spec fn is_scalar(value: QueryModel) -> bool {
    value is Boolean || value is Integer || value is Float || value is Text
}

/// What is stored is read back as it was. Scalars and lists of scalars can be stored, null is
/// stored as no property, and nothing else can be.
pub proof fn what_is_stored_is_read_back(value: QueryModel, range: SourceRange)
    ensures
        stored(value, range) matches Ok(Some(found)) ==> of_property(found) == value,
        stored(value, range) == Ok::<Option<PropertyModel>, QueryErrorModel>(None) <==> value
            == QueryModel::Null,
        stored(value, range) is Ok <==> (value == QueryModel::Null || is_scalar(value) || (
        value matches QueryModel::List(items) && forall|i: int|
            0 <= i < items.len() ==> is_scalar(#[trigger] items[i]))),
{
    if let QueryModel::List(items) = value {
        items_are_read_back(items, 0, range, Seq::empty());
        scalars_are_stored(items, 0, range, Seq::empty());
        if let Ok(scalars) = stored_items(items, 0, range, Seq::empty()) {
            assert(Seq::new(scalars.len(), |i: int| of_scalar(scalars[i])) =~= items);
        }
    }
}

/// Whether stored properties are those of a map: the same keys in the same order, each with
/// what its value was.
pub open spec fn properties_of(
    found: Seq<(Seq<char>, PropertyModel)>,
    values: Seq<(Seq<char>, QueryModel)>,
) -> bool {
    found.len() == values.len() && forall|i: int|
        0 <= i < values.len() ==> (#[trigger] found[i]).0 == values[i].0 && of_property(found[i].1)
            == values[i].1
}

proof fn a_map_is_stored(
    values: Seq<(Seq<char>, QueryModel)>,
    at: int,
    range: SourceRange,
    before: Seq<(Seq<char>, PropertyModel)>,
)
    requires
        0 <= at <= values.len(),
        properties_of(before, values.take(at)),
    ensures
        stored_map(values, at, range, before) matches Ok(found) ==> properties_of(found, values),
    decreases values.len() - at,
{
    if at < values.len() {
        what_is_stored_is_read_back(values[at].1, range);
        if let Ok(Some(found)) = stored(values[at].1, range) {
            let more = before.push((values[at].0, found));
            assert forall|i: int| 0 <= i < at + 1 implies (#[trigger] more[i]).0 == values.take(
                at + 1,
            )[i].0 && of_property(more[i].1) == values.take(at + 1)[i].1 by {
                if i < at {
                    assert(more[i] == before[i]);
                    assert(values.take(at)[i] == values[i]);
                }
            }
            a_map_is_stored(values, at + 1, range, more);
        }
    } else {
        assert(values.take(at) =~= values);
    }
}

// -- Creating ----------------------------------------------------------------------

proof fn names_become_labels(
    names: Seq<String>,
    at: int,
    range: SourceRange,
    before: Seq<Seq<char>>,
    label: Seq<char>,
)
    requires
        0 <= at <= names.len(),
    ensures
        labels_made(names, at, range, before) matches Ok(labels) ==> (labels.contains(label) <==> (
        before.contains(label) || exists|i: int|
            at <= i < names.len() && (#[trigger] names[i])@ == label)),
    decreases names.len() - at,
{
    if at < names.len() {
        pushed_contains(before, names[at]@, label);
        names_become_labels(names, at + 1, range, with_new(before, names[at]@), label);
        if names[at]@ == label {
            assert(with_new(before, names[at]@).contains(label));
        }
    }
}

proof fn free_for_a_node(nodes: Seq<NodeModel>, minted: Minted, at: int, left: nat)
    ensures
        unused_by_nodes(nodes, minted, at, left) matches Some(found) ==> !node_uses(
            nodes,
            minted(found),
        ),
    decreases left,
{
    if left > 0 && node_uses(nodes, minted(at)) {
        free_for_a_node(nodes, minted, at + 1, (left - 1) as nat);
    }
}

proof fn free_for_an_edge(edges: Seq<EdgeModel>, minted: Minted, at: int, left: nat)
    ensures
        unused_by_edges(edges, minted, at, left) matches Some(found) ==> !edge_uses(
            edges,
            minted(found),
        ),
    decreases left,
{
    if left > 0 && edge_uses(edges, minted(at)) {
        free_for_an_edge(edges, minted, at + 1, (left - 1) as nat);
    }
}

/// Whether a variable, where there is one, names nothing yet.
pub open spec fn is_free(scope: crate::matching::Scope, variable: Option<String>) -> bool {
    match variable {
        Some(name) => !scope.contains_key(name@),
        None => true,
    }
}

/// Whether no node has an identifier.
pub open spec fn is_new_node(nodes: Seq<NodeModel>, id: LocalNodeId) -> bool {
    forall|i: int| 0 <= i < nodes.len() ==> (#[trigger] nodes[i]).id != id
}

/// Whether no edge has an identifier.
pub open spec fn is_new_edge(edges: Seq<EdgeModel>, id: LocalEdgeId) -> bool {
    forall|i: int| 0 <= i < edges.len() ==> (#[trigger] edges[i]).id != id
}

/// Whether a node is what a pattern asks for: with its labels and no other, the properties of
/// its map, and the user's contribution alone.
pub open spec fn is_as_asked(
    node: NodeModel,
    pattern: NodePattern,
    values: Seq<(Seq<char>, QueryModel)>,
) -> bool {
    &&& forall|label: Seq<char>|
        node.labels.contains(label) <==> exists|i: int|
            0 <= i < pattern.labels@.len() && (#[trigger] pattern.labels@[i])@ == label
    &&& properties_of(node.properties, values)
    &&& node.contributions == seq![user_entry()]
}

/// A created node stands behind the others, under an identifier that none of them has, and is
/// what the pattern asks for. Its variable names it. Edges stay, and one more node is counted.
pub proof fn a_created_node_is_as_asked(
    state: Written,
    pattern: NodePattern,
    values: Seq<(Seq<char>, QueryModel)>,
    range: SourceRange,
    minted: Minted,
)
    requires
        are_identifiers(minted),
        is_free(state.scope, pattern.variable),
        node_created(state, pattern, values, range, minted).1 is Ok,
    ensures
        ({
            let (after, made) = node_created(state, pattern, values, range, minted);
            let id = made->Ok_0;
            let node = after.graph.nodes.last();
            &&& after.graph.nodes == state.graph.nodes.push(node)
            &&& node.id == id
            &&& is_new_node(state.graph.nodes, id)
            &&& is_as_asked(node, pattern, values)
            &&& after.graph.edges == state.graph.edges
            &&& state.summary.nodes_created < u64::MAX ==> after.summary.nodes_created
                == state.summary.nodes_created + 1
            &&& after.scope == (match pattern.variable {
                Some(name) => state.scope.insert(name@, QueryModel::Node(Scoped { source: 0, id })),
                None => state.scope,
            })
        }),
{
    let (after, made) = node_created(state, pattern, values, range, minted);
    let at = unused_by_nodes(state.graph.nodes, minted, state.used, u64::MAX as nat)->0;
    let node = after.graph.nodes.last();
    free_for_a_node(state.graph.nodes, minted, state.used, u64::MAX as nat);
    LocalNodeId::bytes_are_found(minted(at));
    assert(values.take(0) =~= Seq::empty());
    a_map_is_stored(values, 0, range, Seq::empty());
    assert forall|label: Seq<char>|
        node.labels.contains(label) <==> exists|i: int|
            0 <= i < pattern.labels@.len() && (#[trigger] pattern.labels@[i])@ == label by {
        names_become_labels(pattern.labels@, 0, range, Seq::empty(), label);
    }
    assert forall|i: int| 0 <= i < state.graph.nodes.len() implies (
    #[trigger] state.graph.nodes[i]).id != node.id by {
        assert(node.id@ == minted(at));
    }
}

/// A created edge stands behind the others, under an identifier that none of them has, goes
/// from the one node to the other, and has the one type and the properties of the pattern.
/// Nodes stay, and one more edge is counted.
pub proof fn a_created_edge_is_as_asked(
    state: Written,
    pattern: RelationshipPattern,
    from: LocalNodeId,
    to: LocalNodeId,
    values: Seq<(Seq<char>, QueryModel)>,
    range: SourceRange,
    minted: Minted,
)
    requires
        are_identifiers(minted),
        edge_created(state, pattern, from, to, values, range, minted).1 is Ok,
    ensures
        ({
            let (after, made) = edge_created(state, pattern, from, to, values, range, minted);
            let id = made->Ok_0;
            let edge = after.graph.edges.last();
            &&& after.graph.edges == state.graph.edges.push(edge)
            &&& edge.id == id
            &&& is_new_edge(state.graph.edges, id)
            &&& edge.source == ReferenceModel::Local(from)
            &&& edge.target == ReferenceModel::Local(to)
            &&& pattern.types@.len() == 1 && edge.relation == pattern.types@[0]@
            &&& properties_of(edge.properties, values)
            &&& edge.contributions == seq![user_entry()]
            &&& after.graph.nodes == state.graph.nodes
            &&& state.summary.edges_created < u64::MAX ==> after.summary.edges_created
                == state.summary.edges_created + 1
            &&& after.scope == (match pattern.variable {
                Some(name) => state.scope.insert(
                    name@,
                    QueryModel::Relationship(Scoped { source: 0, id }),
                ),
                None => state.scope,
            })
        }),
{
    let (after, made) = edge_created(state, pattern, from, to, values, range, minted);
    let at = unused_by_edges(state.graph.edges, minted, state.used, u64::MAX as nat)->0;
    let edge = after.graph.edges.last();
    free_for_an_edge(state.graph.edges, minted, state.used, u64::MAX as nat);
    LocalEdgeId::bytes_are_found(minted(at));
    assert(values.take(0) =~= Seq::empty());
    a_map_is_stored(values, 0, range, Seq::empty());
    assert forall|i: int| 0 <= i < state.graph.edges.len() implies (
    #[trigger] state.graph.edges[i]).id != edge.id by {
        assert(edge.id@ == minted(at));
    }
}

/// Whether an edge goes between two nodes the way of an arrow: from the left one to the right
/// one where it points right, and from the right one to the left one where it points left.
pub open spec fn points(
    edge: EdgeModel,
    direction: Direction,
    left: LocalNodeId,
    right: LocalNodeId,
) -> bool {
    match direction {
        Direction::Outgoing => edge.source == ReferenceModel::Local(left) && edge.target
            == ReferenceModel::Local(right),
        Direction::Incoming => edge.source == ReferenceModel::Local(right) && edge.target
            == ReferenceModel::Local(left),
        Direction::Either => false,
    }
}

/// Where creating a node comes to nothing or to something, it leaves edges alone.
proof fn nodes_leave_edges(
    state: Written,
    pattern: NodePattern,
    values: Seq<(Seq<char>, QueryModel)>,
    range: SourceRange,
    minted: Minted,
)
    ensures
        node_created(state, pattern, values, range, minted).0.graph.edges == state.graph.edges,
{
}

/// When a pattern of one step with new nodes at both ends is created, two nodes and one edge
/// are there more than before, the nodes are those that the pattern asks for, and the edge goes
/// from the left to the right one for an arrow to the right, and from the right to the left one
/// for an arrow to the left. A step without an arrow is never created.
pub proof fn a_created_step_goes_the_way_of_its_arrow(
    state: Written,
    pattern: Pattern,
    values: PatternModel,
    range: SourceRange,
    minted: Minted,
)
    requires
        are_identifiers(minted),
        pattern.steps@.len() == 1,
        is_free(state.scope, pattern.start.variable),
        is_free(state.scope, pattern.steps@[0].1.variable),
        (pattern.start.variable is Some && pattern.steps@[0].1.variable is Some)
            ==> pattern.start.variable->0@ != pattern.steps@[0].1.variable->0@,
        pattern_created(state, pattern, values, range, minted).1 is Ok,
    ensures
        ({
            let graph = state.graph;
            let after = pattern_created(state, pattern, values, range, minted).0.graph;
            let count = graph.nodes.len() as int;
            let left = after.nodes[count];
            let right = after.nodes[count + 1];
            let edge = after.edges[graph.edges.len() as int];
            &&& after.nodes == graph.nodes.push(left).push(right)
            &&& after.edges == graph.edges.push(edge)
            &&& is_as_asked(left, pattern.start, values.start)
            &&& is_as_asked(right, pattern.steps@[0].1, values.steps[0].1)
            &&& is_new_node(graph.nodes, left.id)
            &&& is_new_node(graph.nodes.push(left), right.id)
            &&& is_new_edge(graph.edges, edge.id)
            &&& pattern.steps@[0].0.direction == Direction::Outgoing ==> (edge.source
                == ReferenceModel::Local(left.id) && edge.target == ReferenceModel::Local(right.id))
            &&& pattern.steps@[0].0.direction == Direction::Incoming ==> (edge.source
                == ReferenceModel::Local(right.id) && edge.target == ReferenceModel::Local(left.id))
            &&& pattern.steps@[0].0.direction != Direction::Either
            &&& edge.relation == pattern.steps@[0].0.types@[0]@
            &&& properties_of(edge.properties, values.steps[0].0)
        }),
{
    reveal(pattern_created);
    reveal_with_fuel(steps_created, 2);
    let steps = pattern.steps@;
    a_created_node_is_as_asked(state, pattern.start, values.start, range, minted);
    let (first, left) = node_created(state, pattern.start, values.start, range, minted);
    a_created_node_is_as_asked(first, steps[0].1, values.steps[0].1, range, minted);
    let (second, right) = node_created(first, steps[0].1, values.steps[0].1, range, minted);
    let (from, to) = if steps[0].0.direction == Direction::Outgoing {
        (left->Ok_0, right->Ok_0)
    } else {
        (right->Ok_0, left->Ok_0)
    };
    a_created_edge_is_as_asked(second, steps[0].0, from, to, values.steps[0].0, range, minted);
    let last = edge_created(second, steps[0].0, from, to, values.steps[0].0, range, minted).0;
    assert(pattern_created(state, pattern, values, range, minted).0 == last);
}

/// Whether the edges from a place on join nodes one after the other, each the way of the arrow
/// of its step.
pub open spec fn chained(
    edges: Seq<EdgeModel>,
    place: int,
    steps: Seq<(RelationshipPattern, NodePattern)>,
    at: int,
    ids: Seq<LocalNodeId>,
) -> bool {
    ids.len() == steps.len() - at + 1 && edges.len() == place + steps.len() - at && forall|i: int|
        0 <= i < steps.len() - at ==> points(
            #[trigger] edges[place + i],
            steps[at + i].0.direction,
            ids[i],
            ids[i + 1],
        ) && edges[place + i].relation == steps[at + i].0.types@[0]@
}

/// The steps of a pattern are created as a chain: one edge for each, behind those that were
/// there, which joins the node before the step to the node behind it the way of its arrow.
pub proof fn created_steps_form_a_chain(
    state: Written,
    previous: LocalNodeId,
    steps: Seq<(RelationshipPattern, NodePattern)>,
    values: PatternModel,
    at: int,
    range: SourceRange,
    minted: Minted,
)
    requires
        are_identifiers(minted),
        0 <= at <= steps.len(),
        steps_created(state, previous, steps, values, at, range, minted).1 is Ok,
    ensures
        ({
            let before = state.graph.edges;
            let after = steps_created(state, previous, steps, values, at, range, minted).0.graph.edges;
            &&& after.take(before.len() as int) == before
            &&& exists|ids: Seq<LocalNodeId>|
                ids.len() > 0 && ids[0] == previous && #[trigger] chained(
                    after,
                    before.len() as int,
                    steps,
                    at,
                    ids,
                )
        }),
    decreases steps.len() - at,
{
    let before = state.graph.edges;
    let after = steps_created(state, previous, steps, values, at, range, minted).0.graph.edges;
    let place = before.len() as int;
    if at == steps.len() {
        assert(after.take(place) =~= before);
        assert(chained(after, place, steps, at, seq![previous]));
    } else {
        let pattern = steps[at].0;
        let (next, made) = node_created(state, steps[at].1, values.steps[at].1, range, minted);
        nodes_leave_edges(state, steps[at].1, values.steps[at].1, range, minted);
        let target = made->Ok_0;
        let (from, to) = if pattern.direction == Direction::Outgoing {
            (previous, target)
        } else {
            (target, previous)
        };
        a_created_edge_is_as_asked(next, pattern, from, to, values.steps[at].0, range, minted);
        let last = edge_created(next, pattern, from, to, values.steps[at].0, range, minted).0;
        created_steps_form_a_chain(last, target, steps, values, at + 1, range, minted);
        let middle = last.graph.edges;
        let rest = choose|rest: Seq<LocalNodeId>|
            rest.len() > 0 && rest[0] == target && #[trigger] chained(
                after,
                middle.len() as int,
                steps,
                at + 1,
                rest,
            );
        let ids = seq![previous] + rest;
        assert(after.take(place + 1) == middle);
        assert(after.take(place) =~= before) by {
            assert forall|i: int| 0 <= i < place implies after[i] == before[i] by {
                assert(after.take(place + 1)[i] == middle[i]);
            }
        }
        assert(after[place] == middle[place]) by {
            assert(after.take(place + 1)[place] == middle[place]);
        }
        assert(chained(after, place, steps, at, ids)) by {
            assert forall|i: int| 0 <= i < steps.len() - at implies points(
                #[trigger] after[place + i],
                steps[at + i].0.direction,
                ids[i],
                ids[i + 1],
            ) && after[place + i].relation == steps[at + i].0.types@[0]@ by {
                if i > 0 {
                    assert(after[place + i] == after[middle.len() + (i - 1)]);
                    assert(ids[i] == rest[i - 1]);
                    assert(ids[i + 1] == rest[i]);
                }
            }
        }
    }
}

// -- Properties --------------------------------------------------------------------

/// What a record's properties give for a key: the value of the first one with it, and null
/// where there is none.
pub open spec fn gives_for(
    properties: Seq<(Seq<char>, PropertyModel)>,
    key: Seq<char>,
    value: QueryModel,
) -> bool {
    ||| exists|k: int|
        0 <= k < properties.len() && (#[trigger] properties[k]).0 == key && of_property(
            properties[k].1,
        ) == value && forall|j: int| 0 <= j < k ==> (#[trigger] properties[j]).0 != key
    ||| value == QueryModel::Null && forall|j: int|
        0 <= j < properties.len() ==> (#[trigger] properties[j]).0 != key
}

proof fn keys_are_left_out(
    properties: Seq<(Seq<char>, PropertyModel)>,
    key: Seq<char>,
    count: int,
    one: (Seq<char>, PropertyModel),
)
    requires
        0 <= count <= properties.len(),
    ensures
        without_key(properties, key, count).contains(one) <==> (one.0 != key && exists|i: int|
            0 <= i < count && #[trigger] properties[i] == one),
        forall|i: int|
            0 <= i < without_key(properties, key, count).len() ==> (#[trigger] without_key(
                properties,
                key,
                count,
            )[i]).0 != key,
    decreases count,
{
    if count > 0 {
        keys_are_left_out(properties, key, count - 1, one);
        pushed_contains(without_key(properties, key, count - 1), properties[count - 1], one);
        assert(properties[count - 1] == properties[count - 1]);
    }
}

proof fn first_stays_first(
    properties: Seq<(Seq<char>, PropertyModel)>,
    key: Seq<char>,
    count: int,
    other: Seq<char>,
    value: QueryModel,
)
    requires
        0 <= count <= properties.len(),
        key != other,
    ensures
        gives_for(properties.take(count), other, value) ==> gives_for(
            without_key(properties, key, count),
            other,
            value,
        ),
    decreases count,
{
    let front = properties.take(count);
    let left = without_key(properties, key, count);
    if count > 0 && gives_for(front, other, value) {
        let less = properties.take(count - 1);
        let before = without_key(properties, key, count - 1);
        assert(front =~= less.push(properties[count - 1]));
        first_stays_first(properties, key, count - 1, other, value);
        if exists|k: int|
            0 <= k < front.len() && (#[trigger] front[k]).0 == other && of_property(front[k].1)
                == value && forall|j: int| 0 <= j < k ==> (#[trigger] front[j]).0 != other {
            let k = choose|k: int|
                0 <= k < front.len() && (#[trigger] front[k]).0 == other && of_property(front[k].1)
                    == value && forall|j: int| 0 <= j < k ==> (#[trigger] front[j]).0 != other;
            if k < count - 1 {
                assert(less[k] == front[k]);
                assert forall|j: int| 0 <= j < k implies (#[trigger] less[j]).0 != other by {
                    assert(front[j].0 != other);
                }
                assert(gives_for(less, other, value));
                assert(properties[k] == less[k]);
                keys_are_left_out(properties, key, count - 1, less[k]);
                let m = choose|m: int| 0 <= m < before.len() && before[m] == less[k];
                assert(before[m].0 == other);
                if left != before {
                    assert(left.drop_last() =~= before);
                }
                grown(before, left, other, value);
            } else {
                assert forall|j: int| 0 <= j < before.len() implies (#[trigger] before[j]).0 != other by {
                    keys_are_left_out(properties, key, count - 1, before[j]);
                    assert(before.contains(before[j]));
                    let m = choose|m: int| 0 <= m < count - 1 && #[trigger] properties[m] == before[j];
                    assert(front[m] == properties[m]);
                }
                let m = before.len() as int;
                assert(left[m] == properties[count - 1]);
                assert forall|j: int| 0 <= j < m implies (#[trigger] left[j]).0 != other by {
                    assert(left[j] == before[j]);
                }
                assert(gives_for(left, other, value));
            }
        } else {
            assert forall|j: int| 0 <= j < left.len() implies (#[trigger] left[j]).0 != other by {
                keys_are_left_out(properties, key, count, left[j]);
                assert(left.contains(left[j]));
                let m = choose|m: int| 0 <= m < count && #[trigger] properties[m] == left[j];
                assert(front[m] == properties[m]);
            }
        }
    } else if count == 0 {
        assert(front =~= Seq::empty());
        assert(left =~= Seq::empty());
    }
}

proof fn grown(
    before: Seq<(Seq<char>, PropertyModel)>,
    after: Seq<(Seq<char>, PropertyModel)>,
    key: Seq<char>,
    value: QueryModel,
)
    requires
        gives_for(before, key, value),
        after == before || (after.len() == before.len() + 1 && after.drop_last() == before && (
        after.last().0 != key || exists|k: int| 0 <= k < before.len() && (#[trigger] before[k]).0 == key)),
    ensures
        gives_for(after, key, value),
{
    if after != before {
        assert forall|j: int| 0 <= j < before.len() implies #[trigger] after[j] == before[j] by {
            assert(after.drop_last()[j] == before[j]);
        }
        if exists|k: int|
            0 <= k < before.len() && (#[trigger] before[k]).0 == key && of_property(before[k].1)
                == value && forall|j: int| 0 <= j < k ==> (#[trigger] before[j]).0 != key {
            let k = choose|k: int|
                0 <= k < before.len() && (#[trigger] before[k]).0 == key && of_property(before[k].1)
                    == value && forall|j: int| 0 <= j < k ==> (#[trigger] before[j]).0 != key;
            assert(after[k] == before[k]);
            assert forall|j: int| 0 <= j < k implies (#[trigger] after[j]).0 != key by {
                assert(before[j].0 != key);
            }
        } else {
            assert forall|j: int| 0 <= j < after.len() implies (#[trigger] after[j]).0 != key by {
                if j < before.len() {
                    assert(before[j].0 != key);
                }
            }
        }
    }
}

/// A property that is set gives the new value from then on, and one that is removed gives null.
/// Every other key gives what it gave.
pub proof fn a_changed_property_is_read_back(
    properties: Seq<(Seq<char>, PropertyModel)>,
    key: Seq<char>,
    value: Option<PropertyModel>,
    other: Seq<char>,
    was: QueryModel,
)
    requires
        other != key,
        gives_for(properties, other, was),
    ensures
        gives_for(
            property_change(properties, key, value).0,
            key,
            match value {
                Some(found) => of_property(found),
                None => QueryModel::Null,
            },
        ),
        gives_for(property_change(properties, key, value).0, other, was),
{
    let after = property_change(properties, key, value).0;
    match value {
        None => {
            keys_are_left_out(properties, key, properties.len() as int, properties[0]);
            assert(properties.take(properties.len() as int) =~= properties);
            first_stays_first(properties, key, properties.len() as int, other, was);
        },
        Some(found) => {
            first_is_found(properties, key, 0);
            match property_at(properties, key, 0) {
                Some(at) => {
                    assert(after[at] == (key, found));
                    assert forall|j: int| 0 <= j < at implies (#[trigger] after[j]).0 != key by {
                        assert(properties[j].0 != key);
                    }
                    assert(gives_for(after, key, of_property(found)));
                    if exists|k: int|
                        0 <= k < properties.len() && (#[trigger] properties[k]).0 == other
                            && of_property(properties[k].1) == was && forall|j: int|
                            0 <= j < k ==> (#[trigger] properties[j]).0 != other {
                        let k = choose|k: int|
                            0 <= k < properties.len() && (#[trigger] properties[k]).0 == other
                                && of_property(properties[k].1) == was && forall|j: int|
                                0 <= j < k ==> (#[trigger] properties[j]).0 != other;
                        assert(after[k] == properties[k]);
                        assert forall|j: int| 0 <= j < k implies (#[trigger] after[j]).0 != other by {
                            assert(properties[j].0 != other);
                        }
                    } else {
                        assert forall|j: int| 0 <= j < after.len() implies (#[trigger] after[j]).0
                            != other by {
                            assert(properties[j].0 != other);
                        }
                    }
                },
                None => {
                    let k = properties.len() as int;
                    assert(after[k] == (key, found));
                    assert forall|j: int| 0 <= j < k implies (#[trigger] after[j]).0 != key by {
                        assert(properties[j].0 != key);
                    }
                    assert(gives_for(after, key, of_property(found)));
                    assert(after.drop_last() =~= properties);
                    grown(properties, after, other, was);
                },
            }
        },
    }
}

} // verus!
