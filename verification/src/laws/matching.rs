//! What it means that a pattern is found.

use crate::cypher::Direction;
use crate::cypher::Expression;
use crate::cypher::NodePattern;
use crate::cypher::QueryErrorModel;
use crate::cypher::RelationshipPattern;
use crate::evaluate::edge_of_handle;
use crate::evaluate::evaluated;
use crate::evaluate::last_edge;
use crate::evaluate::last_node;
use crate::evaluate::node_of_handle;
use crate::evaluate::property_at;
use crate::evaluate::property_of;
use crate::evaluate::World;
use crate::graph::EdgeModel;
use crate::graph::NodeModel;
use crate::graph::ReferenceModel;
use crate::id::LocalEdgeId;
use crate::id::LocalNodeId;
use crate::matching::admits;
use crate::matching::edge_matches;
use crate::matching::endpoint_of;
use crate::matching::is_route;
use crate::matching::labels_match;
use crate::matching::node_matches;
use crate::matching::properties_match;
use crate::matching::reached_from;
use crate::matching::source_index;
use crate::matching::standing;
use crate::matching::step_over;
use crate::matching::steps_from;
use crate::matching::steps_in_source;
use crate::matching::steps_in_sources;
use crate::matching::type_among;
use crate::matching::walk_on;
use crate::matching::walked;
use crate::matching::walks_on;
use crate::matching::Reached;
use crate::matching::Scope;
use crate::matching::Walk;
use crate::property::PropertyModel;
use crate::value::equal;
use crate::value::of_property;
use crate::value::QueryModel;
use crate::value::Scoped;
use crate::value::ScopedEdge;
use crate::value::ScopedNode;
use vstd::prelude::*;

verus! {

// -- Types, labels and inline maps -------------------------------------------------

/// Whether a type is listed.
pub open spec fn lists_type(types: Seq<String>, relation: Seq<char>) -> bool {
    exists|i: int| 0 <= i < types.len() && (#[trigger] types[i])@ == relation
}

proof fn among_is_listed(relation: Seq<char>, wanted: Seq<String>, at: int)
    requires
        0 <= at <= wanted.len(),
    ensures
        type_among(relation, wanted, at) <==> exists|i: int|
            at <= i < wanted.len() && (#[trigger] wanted[i])@ == relation,
    decreases wanted.len() - at,
{
    if at < wanted.len() {
        among_is_listed(relation, wanted, at + 1);
        if relation == wanted[at]@ {
            assert(at <= at < wanted.len() && wanted[at]@ == relation);
        }
    }
}

/// A relationship pattern admits an edge only where it lists no type or lists the edge's own,
/// and without an inline map exactly there.
pub proof fn an_edge_has_one_of_the_types(
    world: World,
    edge: EdgeModel,
    pattern: RelationshipPattern,
    scope: Scope,
)
    ensures
        pattern.properties@.len() == 0 ==> edge_matches(world, edge, pattern, scope) == Ok::<
            bool,
            QueryErrorModel,
        >(pattern.types@.len() == 0 || lists_type(pattern.types@, edge.relation)),
        edge_matches(world, edge, pattern, scope) == Ok::<bool, QueryErrorModel>(true) ==> (
        pattern.types@.len() == 0 || lists_type(pattern.types@, edge.relation)),
{
    among_is_listed(edge.relation, pattern.types@, 0);
}

/// One type more in a list that is not empty never takes a match away.
pub proof fn more_types_match_more(
    world: World,
    edge: EdgeModel,
    pattern: RelationshipPattern,
    wider: RelationshipPattern,
    scope: Scope,
)
    requires
        pattern.types@.len() > 0,
        wider.types@.len() > pattern.types@.len(),
        forall|i: int| 0 <= i < pattern.types@.len() ==> wider.types@[i] == #[trigger] pattern.types@[i],
        wider.properties@ == pattern.properties@,
        edge_matches(world, edge, pattern, scope) == Ok::<bool, QueryErrorModel>(true),
    ensures
        edge_matches(world, edge, wider, scope) == Ok::<bool, QueryErrorModel>(true),
{
    among_is_listed(edge.relation, pattern.types@, 0);
    among_is_listed(edge.relation, wider.types@, 0);
    let i = choose|i: int|
        0 <= i < pattern.types@.len() && (#[trigger] pattern.types@[i])@ == edge.relation;
    assert(wider.types@[i]@ == edge.relation);
}

proof fn all_labels_are_carried(labels: Seq<Seq<char>>, wanted: Seq<String>, at: int)
    requires
        0 <= at <= wanted.len(),
    ensures
        labels_match(labels, wanted, at) <==> forall|i: int|
            at <= i < wanted.len() ==> labels.contains((#[trigger] wanted[i])@),
    decreases wanted.len() - at,
{
    if at < wanted.len() {
        all_labels_are_carried(labels, wanted, at + 1);
    }
}

/// A node pattern admits a node only where the node carries every label of the pattern, and
/// without an inline map exactly there.
pub proof fn a_node_has_every_label(
    world: World,
    node: NodeModel,
    pattern: NodePattern,
    scope: Scope,
)
    ensures
        pattern.properties@.len() == 0 ==> node_matches(world, node, pattern, scope) == Ok::<
            bool,
            QueryErrorModel,
        >(forall|i: int|
            0 <= i < pattern.labels@.len() ==> node.labels.contains(
                (#[trigger] pattern.labels@[i])@,
            )),
        node_matches(world, node, pattern, scope) == Ok::<bool, QueryErrorModel>(true) ==> forall|
            i: int,
        |
            0 <= i < pattern.labels@.len() ==> node.labels.contains((#[trigger] pattern.labels@[i])@),
{
    all_labels_are_carried(node.labels, pattern.labels@, 0);
}

/// Whether the first stored property with a key has a value.
pub open spec fn holds_value(
    stored: Seq<(Seq<char>, PropertyModel)>,
    key: Seq<char>,
    value: QueryModel,
) -> bool {
    exists|k: int|
        0 <= k < stored.len() && (#[trigger] stored[k]).0 == key && (forall|j: int|
            0 <= j < k ==> (#[trigger] stored[j]).0 != key) && equal(
            of_property(stored[k].1),
            value,
        )
}

/// Whether stored properties have the value that an entry of an inline map evaluates to, which
/// is not null.
pub open spec fn entry_holds(
    world: World,
    stored: Seq<(Seq<char>, PropertyModel)>,
    entry: (String, Expression),
    scope: Scope,
) -> bool {
    evaluated(world, entry.1, scope, None) matches Ok(value) && value != QueryModel::Null
        && holds_value(stored, entry.0@, value)
}

pub proof fn first_is_found(stored: Seq<(Seq<char>, PropertyModel)>, key: Seq<char>, at: int)
    requires
        0 <= at <= stored.len(),
    ensures
        match property_at(stored, key, at) {
            Some(k) => at <= k < stored.len() && stored[k].0 == key && forall|j: int|
                at <= j < k ==> (#[trigger] stored[j]).0 != key,
            None => forall|j: int| at <= j < stored.len() ==> (#[trigger] stored[j]).0 != key,
        },
    decreases stored.len() - at,
{
    if at < stored.len() && stored[at].0 != key {
        first_is_found(stored, key, at + 1);
    }
}

proof fn map_is_held(
    world: World,
    stored: Seq<(Seq<char>, PropertyModel)>,
    wanted: Seq<(String, Expression)>,
    at: int,
    scope: Scope,
)
    requires
        0 <= at <= wanted.len(),
    ensures
        properties_match(world, stored, wanted, at, scope) == Ok::<bool, QueryErrorModel>(true)
            <==> forall|i: int|
            at <= i < wanted.len() ==> entry_holds(world, stored, #[trigger] wanted[i], scope),
        (forall|i: int|
            at <= i < wanted.len() ==> (evaluated(world, (#[trigger] wanted[i]).1, scope, None)
                matches Ok(value) && value != QueryModel::Null)) ==> properties_match(
            world,
            stored,
            wanted,
            at,
            scope,
        ) is Ok,
    decreases wanted.len() - at,
{
    if at < wanted.len() {
        map_is_held(world, stored, wanted, at + 1, scope);
        first_is_found(stored, wanted[at].0@, 0);
        if let Ok(value) = evaluated(world, wanted[at].1, scope, None) {
            if let Some(k) = property_at(stored, wanted[at].0@, 0) {
                assert(holds_value(stored, wanted[at].0@, value) <==> equal(
                    of_property(stored[k].1),
                    value,
                )) by {
                    if holds_value(stored, wanted[at].0@, value) {
                        let m = choose|m: int|
                            0 <= m < stored.len() && (#[trigger] stored[m]).0 == wanted[at].0@ && (
                            forall|j: int|
                                0 <= j < m ==> (#[trigger] stored[j]).0 != wanted[at].0@) && equal(
                                of_property(stored[m].1),
                                value,
                            );
                        assert(m == k) by {
                            if m < k {
                                assert(stored[m].0 != wanted[at].0@);
                            }
                            if k < m {
                                assert(stored[k].0 != wanted[at].0@);
                            }
                        }
                    }
                    if equal(of_property(stored[k].1), value) {
                        assert(stored[k].0 == wanted[at].0@);
                    }
                }
            } else {
                assert(!holds_value(stored, wanted[at].0@, value));
            }
        }
        assert(entry_holds(world, stored, wanted[at], scope) <==> (evaluated(
            world,
            wanted[at].1,
            scope,
            None,
        ) matches Ok(value) && value != QueryModel::Null && holds_value(
            stored,
            wanted[at].0@,
            value,
        )));
        if properties_match(world, stored, wanted, at, scope) == Ok::<bool, QueryErrorModel>(true) {
            assert forall|i: int| at <= i < wanted.len() implies entry_holds(
                world,
                stored,
                #[trigger] wanted[i],
                scope,
            ) by {}
        }
    }
}

/// An inline map is satisfied exactly where for each of its entries the first stored property
/// with that key equals what the entry evaluates to, and that is not null.
pub proof fn an_inline_map_is_satisfied(
    world: World,
    node: NodeModel,
    edge: EdgeModel,
    start: NodePattern,
    relationship: RelationshipPattern,
    scope: Scope,
)
    ensures
        node_matches(world, node, start, scope) == Ok::<bool, QueryErrorModel>(true) <==> ((forall|
            i: int,
        |
            0 <= i < start.labels@.len() ==> node.labels.contains((#[trigger] start.labels@[i])@))
            && forall|i: int|
            0 <= i < start.properties@.len() ==> entry_holds(
                world,
                node.properties,
                #[trigger] start.properties@[i],
                scope,
            )),
        edge_matches(world, edge, relationship, scope) == Ok::<bool, QueryErrorModel>(true) <==> ((
        relationship.types@.len() == 0 || lists_type(relationship.types@, edge.relation)) && forall|
            i: int,
        |
            0 <= i < relationship.properties@.len() ==> entry_holds(
                world,
                edge.properties,
                #[trigger] relationship.properties@[i],
                scope,
            )),
{
    all_labels_are_carried(node.labels, start.labels@, 0);
    map_is_held(world, node.properties, start.properties@, 0, scope);
    among_is_listed(edge.relation, relationship.types@, 0);
    map_is_held(world, edge.properties, relationship.properties@, 0, scope);
}

// -- Handles -----------------------------------------------------------------------

proof fn last_node_is_last(nodes: Seq<NodeModel>, count: int, id: LocalNodeId)
    requires
        0 <= count <= nodes.len(),
    ensures
        match last_node(nodes, count, id) {
            Some(k) => 0 <= k < count && nodes[k].id == id && forall|j: int|
                k < j < count ==> (#[trigger] nodes[j]).id != id,
            None => forall|j: int| 0 <= j < count ==> (#[trigger] nodes[j]).id != id,
        },
    decreases count,
{
    if count > 0 && nodes[count - 1].id != id {
        last_node_is_last(nodes, count - 1, id);
    }
}

proof fn last_edge_is_last(edges: Seq<EdgeModel>, count: int, id: LocalEdgeId)
    requires
        0 <= count <= edges.len(),
    ensures
        match last_edge(edges, count, id) {
            Some(k) => 0 <= k < count && edges[k].id == id && forall|j: int|
                k < j < count ==> (#[trigger] edges[j]).id != id,
            None => forall|j: int| 0 <= j < count ==> (#[trigger] edges[j]).id != id,
        },
    decreases count,
{
    if count > 0 && edges[count - 1].id != id {
        last_edge_is_last(edges, count - 1, id);
    }
}

/// The graph of a source: number zero is the root, and those behind it are the linked sources
/// in their order.
pub open spec fn is_graph_of(world: World, source: int, graph: crate::graph::GraphModel) -> bool {
    ||| source == 0 && graph == world.root
    ||| 0 < source <= world.linked.len() && graph == world.linked[source - 1].1
}

/// A node's handle names a record of its own source with its own identifier, and where the
/// source has exactly one such record, it names that one.
pub proof fn a_handle_names_its_node(world: World, handle: ScopedNode, k: int)
    requires
        handle.source <= world.linked.len(),
    ensures
        is_graph_of(world, handle.source as int, world.graph(handle.source as int)),
        node_of_handle(world, handle) matches Some(node) ==> node.id == handle.id && world.graph(
            handle.source as int,
        ).nodes.contains(node),
        ({
            let nodes = world.graph(handle.source as int).nodes;
            0 <= k < nodes.len() && nodes[k].id == handle.id ==> (node_of_handle(world, handle)
                is Some && ((forall|j: int|
                0 <= j < nodes.len() && j != k ==> (#[trigger] nodes[j]).id != handle.id)
                ==> node_of_handle(world, handle) == Some(nodes[k])))
        }),
{
    let nodes = world.graph(handle.source as int).nodes;
    last_node_is_last(nodes, nodes.len() as int, handle.id);
}

/// An edge's handle names a record of its own source with its own identifier, and where the
/// source has exactly one such record, it names that one.
pub proof fn a_handle_names_its_edge(world: World, handle: ScopedEdge, k: int)
    requires
        handle.source <= world.linked.len(),
    ensures
        edge_of_handle(world, handle) matches Some(edge) ==> edge.id == handle.id && world.graph(
            handle.source as int,
        ).edges.contains(edge),
        ({
            let edges = world.graph(handle.source as int).edges;
            0 <= k < edges.len() && edges[k].id == handle.id ==> (edge_of_handle(world, handle)
                is Some && ((forall|j: int|
                0 <= j < edges.len() && j != k ==> (#[trigger] edges[j]).id != handle.id)
                ==> edge_of_handle(world, handle) == Some(edges[k])))
        }),
{
    let edges = world.graph(handle.source as int).edges;
    last_edge_is_last(edges, edges.len() as int, handle.id);
}

proof fn first_source_is_found(
    linked: Seq<(Seq<char>, crate::graph::GraphModel)>,
    locator: Seq<char>,
    at: int,
)
    requires
        0 <= at <= linked.len(),
    ensures
        match source_index(linked, locator, at) {
            Some(k) => at <= k < linked.len() && linked[k].0 == locator && forall|j: int|
                at <= j < k ==> (#[trigger] linked[j]).0 != locator,
            None => forall|j: int| at <= j < linked.len() ==> (#[trigger] linked[j]).0 != locator,
        },
    decreases linked.len() - at,
{
    if at < linked.len() && linked[at].0 != locator {
        first_source_is_found(linked, locator, at + 1);
    }
}

/// A local endpoint names a node of the edge's own source. An external one names a node of the
/// first source that was opened with its locator, and nothing where none was.
pub proof fn an_endpoint_names_its_node(world: World, reference: ReferenceModel, own: u32)
    requires
        world.linked.len() < u32::MAX,
    ensures
        match reference {
            ReferenceModel::Local(id) => endpoint_of(world, reference, own as int) == Some(
                Scoped { source: own, id },
            ),
            ReferenceModel::External(scoped) => match endpoint_of(world, reference, own as int) {
                Some(found) => {
                    &&& found.id == scoped.local
                    &&& 0 < found.source <= world.linked.len()
                    &&& world.linked[found.source - 1].0 == scoped.source
                    &&& forall|j: int|
                        0 <= j < found.source - 1 ==> (#[trigger] world.linked[j]).0
                            != scoped.source
                },
                None => forall|j: int|
                    0 <= j < world.linked.len() ==> (#[trigger] world.linked[j]).0 != scoped.source,
            },
        },
{
    if let ReferenceModel::External(scoped) = reference {
        first_source_is_found(world.linked, scoped.source, 0);
    }
}

/// A property of a record is the value of its first stored property with that key, and null
/// where it has none. What is no record has none.
pub proof fn a_property_is_the_stored_one(world: World, bound: QueryModel, key: Seq<char>, k: int)
    ensures
        bound matches QueryModel::Node(handle) ==> (node_of_handle(world, handle) matches Some(node)
            ==> ((0 <= k < node.properties.len() && node.properties[k].0 == key && (forall|j: int|
            0 <= j < k ==> (#[trigger] node.properties[j]).0 != key)) ==> property_of(
            world,
            bound,
            key,
        ) == of_property(node.properties[k].1)) && ((forall|j: int|
            0 <= j < node.properties.len() ==> (#[trigger] node.properties[j]).0 != key)
            ==> property_of(world, bound, key) == QueryModel::Null)),
        bound matches QueryModel::Relationship(handle) ==> (edge_of_handle(world, handle) matches Some(
            edge,
        ) ==> ((0 <= k < edge.properties.len() && edge.properties[k].0 == key && (forall|j: int|
            0 <= j < k ==> (#[trigger] edge.properties[j]).0 != key)) ==> property_of(
            world,
            bound,
            key,
        ) == of_property(edge.properties[k].1)) && ((forall|j: int|
            0 <= j < edge.properties.len() ==> (#[trigger] edge.properties[j]).0 != key)
            ==> property_of(world, bound, key) == QueryModel::Null)),
        !(bound is Node) && !(bound is Relationship) ==> property_of(world, bound, key)
            == QueryModel::Null,
{
    if let QueryModel::Node(handle) = bound {
        if let Some(node) = node_of_handle(world, handle) {
            first_is_found(node.properties, key, 0);
        }
    }
    if let QueryModel::Relationship(handle) = bound {
        if let Some(edge) = edge_of_handle(world, handle) {
            first_is_found(edge.properties, key, 0);
        }
    }
}

// -- Steps -------------------------------------------------------------------------

/// Whether the edge record at a place of a source leads over a step: out of `from` at its
/// source and to its target where it is followed forward, and the other way round backward.
pub open spec fn followed(
    world: World,
    from: ScopedNode,
    pattern: RelationshipPattern,
    scope: Scope,
    forward: bool,
    source: int,
    place: int,
    step: (ScopedEdge, ScopedNode),
) -> bool {
    let record = world.graph(source).edges[place];
    let tail = if forward {
        record.source
    } else {
        record.target
    };
    &&& 0 <= place < world.graph(source).edges.len()
    &&& step.0 == (Scoped { source: source as u32, id: record.id })
    &&& endpoint_of(world, tail, source) == Some(from)
    &&& edge_of_handle(world, step.0) matches Some(edge) && edge_matches(
        world,
        edge,
        pattern,
        scope,
    ) == Ok::<bool, QueryErrorModel>(true) && endpoint_of(
        world,
        if forward {
            edge.target
        } else {
            edge.source
        },
        source,
    ) == Some(step.1)
}

proof fn pushed_contains<A>(items: Seq<A>, item: A, wanted: A)
    ensures
        items.push(item).contains(wanted) <==> items.contains(wanted) || wanted == item,
{
    let more = items.push(item);
    if items.contains(wanted) {
        let i = choose|i: int| 0 <= i < items.len() && items[i] == wanted;
        assert(more[i] == wanted);
    }
    if wanted == item {
        assert(more[items.len() as int] == wanted);
    }
    if more.contains(wanted) {
        let i = choose|i: int| 0 <= i < more.len() && more[i] == wanted;
        if i < items.len() {
            assert(items[i] == wanted);
        }
    }
}

proof fn source_is_followed(
    world: World,
    from: ScopedNode,
    pattern: RelationshipPattern,
    scope: Scope,
    forward: bool,
    source: int,
    at: int,
    before: Seq<(ScopedEdge, ScopedNode)>,
    step: (ScopedEdge, ScopedNode),
)
    requires
        0 <= at <= world.graph(source).edges.len(),
    ensures
        steps_in_source(world, from, pattern, scope, forward, source, at, before) matches Ok(found)
            ==> (found.contains(step) <==> before.contains(step) || exists|i: int|
            at <= i && #[trigger] followed(world, from, pattern, scope, forward, source, i, step)),
    decreases world.graph(source).edges.len() - at,
{
    let edges = world.graph(source).edges;
    if at < edges.len() {
        let over = step_over(world, from, pattern, scope, forward, source, edges[at]);
        if let Ok(Some(one)) = over {
            source_is_followed(
                world,
                from,
                pattern,
                scope,
                forward,
                source,
                at + 1,
                before.push(one),
                step,
            );
            pushed_contains(before, one, step);
        } else {
            source_is_followed(world, from, pattern, scope, forward, source, at + 1, before, step);
        }
        assert(over is Ok ==> (over == Ok::<_, QueryErrorModel>(Some(step)) <==> followed(
            world,
            from,
            pattern,
            scope,
            forward,
            source,
            at,
            step,
        )));
    }
}

proof fn sources_are_followed(
    world: World,
    from: ScopedNode,
    pattern: RelationshipPattern,
    scope: Scope,
    forward: bool,
    source: int,
    before: Seq<(ScopedEdge, ScopedNode)>,
    step: (ScopedEdge, ScopedNode),
)
    requires
        0 <= source <= world.linked.len() + 1,
    ensures
        steps_in_sources(world, from, pattern, scope, forward, source, before) matches Ok(found)
            ==> (found.contains(step) <==> before.contains(step) || exists|s: int, i: int|
            source <= s <= world.linked.len() && #[trigger] followed(
                world,
                from,
                pattern,
                scope,
                forward,
                s,
                i,
                step,
            )),
    decreases world.linked.len() + 1 - source,
{
    if source <= world.linked.len() {
        source_is_followed(world, from, pattern, scope, forward, source, 0, before, step);
        if let Ok(more) = steps_in_source(world, from, pattern, scope, forward, source, 0, before) {
            sources_are_followed(world, from, pattern, scope, forward, source + 1, more, step);
            if exists|i: int| #[trigger] followed(world, from, pattern, scope, forward, source, i, step) {
                let i = choose|i: int| #[trigger] followed(world, from, pattern, scope, forward, source, i, step);
                assert(followed(world, from, pattern, scope, forward, source, i, step));
                assert(0 <= i);
            }
        }
    }
}

/// The steps that a pattern admits from a node are exactly the edges that it admits and that
/// leave the node the way the pattern points: at their source to their target where it points
/// out, at their target to their source where it points in, and both ways where it does not
/// point.
pub proof fn steps_go_the_way_of_the_arrow(
    world: World,
    from: ScopedNode,
    pattern: RelationshipPattern,
    scope: Scope,
    step: (ScopedEdge, ScopedNode),
)
    ensures
        steps_from(world, from, pattern, scope) matches Ok(found) ==> (found.contains(step) <==> (
        pattern.direction != Direction::Incoming && exists|s: int, i: int|
            0 <= s <= world.linked.len() && #[trigger] followed(
                world,
                from,
                pattern,
                scope,
                true,
                s,
                i,
                step,
            )) || (pattern.direction != Direction::Outgoing && exists|s: int, i: int|
            0 <= s <= world.linked.len() && #[trigger] followed(
                world,
                from,
                pattern,
                scope,
                false,
                s,
                i,
                step,
            ))),
{
    let none = Seq::<(ScopedEdge, ScopedNode)>::empty();
    sources_are_followed(world, from, pattern, scope, true, 0, none, step);
    if pattern.direction == Direction::Incoming {
        sources_are_followed(world, from, pattern, scope, false, 0, none, step);
    } else if let Ok(found) = steps_in_sources(world, from, pattern, scope, true, 0, none) {
        sources_are_followed(world, from, pattern, scope, false, 0, found, step);
    }
}

// -- Walks -------------------------------------------------------------------------

proof fn walk_goes_on(
    walk: Walk,
    steps: Seq<(ScopedEdge, ScopedNode)>,
    at: int,
    counts: bool,
    found: Seq<Reached>,
    next: Seq<Walk>,
    step: (ScopedEdge, ScopedNode),
    old_reached: Reached,
    old_walk: Walk,
)
    requires
        0 <= at <= steps.len(),
    ensures
        ({
            let (more, further) = walk_on(walk, steps, at, counts, found, next);
            &&& found.contains(old_reached) ==> more.contains(old_reached)
            &&& next.contains(old_walk) ==> further.contains(old_walk)
            &&& (exists|i: int| at <= i < steps.len() && #[trigger] steps[i] == step)
                && !walk.visited.contains(step.1) ==> {
                &&& counts ==> more.contains((walk.edges.push(step.0), step.1))
                &&& further.contains(
                    Walk {
                        edges: walk.edges.push(step.0),
                        current: step.1,
                        visited: walk.visited.push(step.1),
                    },
                )
            }
        }),
    decreases steps.len() - at,
{
    if at < steps.len() {
        if walk.visited.contains(steps[at].1) {
            walk_goes_on(walk, steps, at + 1, counts, found, next, step, old_reached, old_walk);
        } else {
            let edges = walk.edges.push(steps[at].0);
            let longer = Walk {
                edges,
                current: steps[at].1,
                visited: walk.visited.push(steps[at].1),
            };
            let more = if counts {
                found.push((edges, steps[at].1))
            } else {
                found
            };
            pushed_contains(found, (edges, steps[at].1), old_reached);
            pushed_contains(next, longer, old_walk);
            pushed_contains(found, (edges, steps[at].1), (edges, steps[at].1));
            pushed_contains(next, longer, longer);
            walk_goes_on(
                walk,
                steps,
                at + 1,
                counts,
                more,
                next.push(longer),
                step,
                old_reached,
                old_walk,
            );
            walk_goes_on(
                walk,
                steps,
                at + 1,
                counts,
                more,
                next.push(longer),
                step,
                (edges, steps[at].1),
                longer,
            );
        }
    }
}

proof fn walks_go_on(
    world: World,
    pattern: RelationshipPattern,
    scope: Scope,
    walks: Seq<Walk>,
    at: int,
    counts: bool,
    found: Seq<Reached>,
    next: Seq<Walk>,
    walk: Walk,
    step: (ScopedEdge, ScopedNode),
    old_reached: Reached,
    old_walk: Walk,
)
    requires
        0 <= at <= walks.len(),
    ensures
        walks_on(world, pattern, scope, walks, at, counts, found, next) matches Ok((more, further))
            ==> {
            &&& found.contains(old_reached) ==> more.contains(old_reached)
            &&& next.contains(old_walk) ==> further.contains(old_walk)
            &&& (exists|i: int| at <= i < walks.len() && #[trigger] walks[i] == walk) && admits(
                world,
                pattern,
                scope,
                walk.current,
                step.0,
                step.1,
            ) && !walk.visited.contains(step.1) ==> {
                &&& counts ==> more.contains((walk.edges.push(step.0), step.1))
                &&& further.contains(
                    Walk {
                        edges: walk.edges.push(step.0),
                        current: step.1,
                        visited: walk.visited.push(step.1),
                    },
                )
            }
        },
    decreases walks.len() - at,
{
    if at < walks.len() {
        if let Ok(steps) = steps_from(world, walks[at].current, pattern, scope) {
            let (more, further) = walk_on(walks[at], steps, 0, counts, found, next);
            let reached: Reached = (walk.edges.push(step.0), step.1);
            let longer = Walk {
                edges: walk.edges.push(step.0),
                current: step.1,
                visited: walk.visited.push(step.1),
            };
            walk_goes_on(walks[at], steps, 0, counts, found, next, step, old_reached, old_walk);
            walks_go_on(
                world,
                pattern,
                scope,
                walks,
                at + 1,
                counts,
                more,
                further,
                walk,
                step,
                old_reached,
                old_walk,
            );
            walks_go_on(
                world,
                pattern,
                scope,
                walks,
                at + 1,
                counts,
                more,
                further,
                walk,
                step,
                reached,
                longer,
            );
        }
    }
}

/// Whether a walk is the beginning of a route.
spec fn begins(walk: Walk, nodes: Seq<ScopedNode>, edges: Seq<ScopedEdge>, count: int) -> bool {
    &&& walk.edges == edges.take(count)
    &&& walk.visited == nodes.take(count + 1)
    &&& walk.current == nodes[count]
}

proof fn every_route_is_walked(
    world: World,
    pattern: RelationshipPattern,
    scope: Scope,
    range: crate::cypher::LengthRange,
    depth: int,
    walks: Seq<Walk>,
    found: Seq<Reached>,
    nodes: Seq<ScopedNode>,
    edges: Seq<ScopedEdge>,
)
    requires
        1 <= depth,
        is_route(world, pattern, scope, nodes, edges),
        range.minimum <= edges.len() <= range.maximum,
        depth <= edges.len() ==> exists|i: int|
            0 <= i < walks.len() && begins(#[trigger] walks[i], nodes, edges, depth - 1),
        depth > edges.len() ==> found.contains((edges, nodes.last())),
    ensures
        walked(world, pattern, scope, range, depth, walks, found) matches Ok(all) ==> all.contains(
            (edges, nodes.last()),
        ),
    decreases range.maximum + 1 - depth,
{
    if depth <= range.maximum && walks.len() > 0 {
        let counts = depth >= range.minimum;
        let none = Seq::<Walk>::empty();
        let end: Reached = (edges, nodes.last());
        if let Ok((more, next)) = walks_on(world, pattern, scope, walks, 0, counts, found, none) {
            if depth <= edges.len() {
                let k = choose|k: int|
                    0 <= k < walks.len() && begins(#[trigger] walks[k], nodes, edges, depth - 1);
                let walk = walks[k];
                let step = (edges[depth - 1], nodes[depth]);
                assert(admits(world, pattern, scope, nodes[depth - 1], edges[depth - 1], nodes[depth]));
                assert(!walk.visited.contains(step.1)) by {
                    if walk.visited.contains(step.1) {
                        let j = choose|j: int| 0 <= j < walk.visited.len() && walk.visited[j] == step.1;
                        assert(nodes[j] == nodes[depth]);
                    }
                }
                walks_go_on(world, pattern, scope, walks, 0, counts, found, none, walk, step, end, walk);
                assert(walk.edges.push(step.0) =~= edges.take(depth));
                assert(walk.visited.push(step.1) =~= nodes.take(depth + 1));
                let longer = Walk {
                    edges: walk.edges.push(step.0),
                    current: step.1,
                    visited: walk.visited.push(step.1),
                };
                let m = choose|m: int| 0 <= m < next.len() && next[m] == longer;
                assert(begins(next[m], nodes, edges, depth));
                if depth == edges.len() {
                    assert(edges.take(depth) =~= edges);
                }
            } else {
                walks_go_on(
                    world,
                    pattern,
                    scope,
                    walks,
                    0,
                    counts,
                    found,
                    none,
                    standing(nodes[0]),
                    (edges[0], nodes[0]),
                    end,
                    standing(nodes[0]),
                );
            }
            every_route_is_walked(
                world,
                pattern,
                scope,
                range,
                depth + 1,
                next,
                more,
                nodes,
                edges,
            );
        }
    }
}

/// A pattern of variable length reaches the end of every walk over edges that it admits whose
/// length lies within its range and that is at no node twice.
pub proof fn every_walk_within_the_range_is_found(
    world: World,
    pattern: RelationshipPattern,
    scope: Scope,
    nodes: Seq<ScopedNode>,
    edges: Seq<ScopedEdge>,
)
    requires
        is_route(world, pattern, scope, nodes, edges),
        edges.len() > 0,
        pattern.length matches Some(range) && range.minimum <= edges.len() <= range.maximum,
    ensures
        reached_from(world, nodes[0], pattern, scope) matches Ok(found) ==> found.contains(
            (edges, nodes.last()),
        ),
{
    let range = pattern.length->0;
    let walks = seq![standing(nodes[0])];
    assert(edges.take(0) =~= Seq::empty());
    assert(nodes.take(1) =~= seq![nodes[0]]);
    assert(begins(walks[0], nodes, edges, 0));
    every_route_is_walked(world, pattern, scope, range, 1, walks, Seq::empty(), nodes, edges);
}

/// A pattern without a length takes exactly one edge.
pub proof fn one_edge_where_there_is_no_length(
    world: World,
    from: ScopedNode,
    pattern: RelationshipPattern,
    scope: Scope,
    reached: Reached,
)
    requires
        pattern.length is None,
    ensures
        reached_from(world, from, pattern, scope) matches Ok(found) ==> (found.contains(reached)
            <==> reached.0.len() == 1 && admits(
            world,
            pattern,
            scope,
            from,
            reached.0[0],
            reached.1,
        )),
{
    if let Ok(steps) = steps_from(world, from, pattern, scope) {
        let found = reached_from(world, from, pattern, scope)->Ok_0;
        if found.contains(reached) {
            let i = choose|i: int| 0 <= i < found.len() && found[i] == reached;
            assert(steps[i] == (reached.0[0], reached.1));
        }
        if reached.0.len() == 1 && steps.contains((reached.0[0], reached.1)) {
            let i = choose|i: int| 0 <= i < steps.len() && steps[i] == (reached.0[0], reached.1);
            assert(found[i].0 =~= reached.0);
            assert(found[i] == reached);
        }
    }
}

} // verus!
