//! What was created is found again.

use crate::answers::every_node_is_a_candidate;
use crate::answers::holds_node;
use crate::cypher::Direction;
use crate::cypher::Pattern;
use crate::cypher::RelationshipPattern;
use crate::evaluate::edge_of_handle;
use crate::evaluate::node_of_handle;
use crate::evaluate::World;
use crate::evidence::SourceRange;
use crate::graph::EdgeModel;
use crate::graph::Node;
use crate::graph::NodeModel;
use crate::graph::ReferenceModel;
use crate::keeping::are_identifiers;
use crate::laws::matching::a_handle_names_its_edge;
use crate::laws::matching::a_handle_names_its_node;
use crate::laws::matching::a_node_has_every_label;
use crate::laws::matching::an_edge_has_one_of_the_types;
use crate::laws::matching::followed;
use crate::laws::matching::lists_type;
use crate::laws::matching::one_edge_where_there_is_no_length;
use crate::laws::matching::steps_go_the_way_of_the_arrow;
use crate::laws::rows::a_pattern_gives_its_matches;
use crate::laws::rows::goes_on_to;
use crate::laws::rows::goes_through;
use crate::laws::rows::one_step_on;
use crate::laws::rows::starts_at;
use crate::laws::rows::starts_somewhere;
use crate::laws::writing::a_created_step_goes_the_way_of_its_arrow;
use crate::laws::writing::is_free;
use crate::laws::writing::is_new_edge;
use crate::laws::writing::is_new_node;
use crate::matching::candidates_in;
use crate::matching::candidates_of;
use crate::matching::matched;
use crate::matching::reached_from;
use crate::matching::steps_from;
use crate::matching::Partial;
use crate::matching::Reached;
use crate::matching::Scope;
use crate::mutate::pattern_created;
use crate::mutate::Minted;
use crate::mutate::PatternModel;
use crate::mutate::Written;
use crate::order::sorted;
use crate::order::sorted_contains;
use crate::value::QueryModel;
use crate::value::Scoped;
use crate::value::ScopedEdge;
use crate::value::ScopedNode;
use vstd::prelude::*;

verus! {

proof fn candidates_of_one_source(nodes: Seq<NodeModel>, source: int, count: int)
    requires
        0 <= count <= nodes.len(),
        0 <= source < u32::MAX,
    ensures
        forall|i: int|
            0 <= i < candidates_in(nodes, source, count).len() ==> (#[trigger] candidates_in(
                nodes,
                source,
                count,
            )[i]).0 == (Scoped { source: source as u32, id: candidates_in(nodes, source, count)[i].1.id })
                && nodes.contains(candidates_in(nodes, source, count)[i].1),
    decreases count,
{
    if count > 0 {
        candidates_of_one_source(nodes, source, count - 1);
        let before = candidates_in(nodes, source, count - 1);
        let after = candidates_in(nodes, source, count);
        assert(nodes.contains(nodes[count - 1]));
        assert forall|i: int| 0 <= i < after.len() implies (#[trigger] after[i]).0 == (Scoped {
            source: source as u32,
            id: after[i].1.id,
        }) && nodes.contains(after[i].1) by {
            if i < before.len() {
                assert(after[i] == before[i]);
            }
        }
    }
}

/// What a match starts at is a node of the source that its handle names, with the identifier
/// that it names.
pub proof fn a_candidate_is_the_node_it_names(world: World, count: int)
    requires
        world.linked.len() < u32::MAX,
        0 <= count <= world.linked.len() + 1,
    ensures
        forall|i: int|
            0 <= i < candidates_of(world, count).len() ==> (#[trigger] candidates_of(
                world,
                count,
            )[i]).0.id == candidates_of(world, count)[i].1.id && world.graph(
                candidates_of(world, count)[i].0.source as int,
            ).nodes.contains(candidates_of(world, count)[i].1),
    decreases count,
{
    if count > 0 {
        a_candidate_is_the_node_it_names(world, count - 1);
        let graph = world.graph(count - 1);
        let nodes = sorted::<Node>(graph.nodes);
        candidates_of_one_source(nodes, count - 1, nodes.len() as int);
        let before = candidates_of(world, count - 1);
        let added = candidates_in(nodes, count - 1, nodes.len() as int);
        let found = candidates_of(world, count);
        assert forall|i: int| 0 <= i < found.len() implies (#[trigger] found[i]).0.id == found[i].1.id
            && world.graph(found[i].0.source as int).nodes.contains(found[i].1) by {
            if i < before.len() {
                assert(found[i] == before[i]);
            } else {
                assert(found[i] == added[i - before.len()]);
                sorted_contains::<Node>(graph.nodes, found[i].1);
            }
        }
    }
}

/// A scope with a variable, where there is one, that names a value.
pub open spec fn naming(scope: Scope, variable: Option<String>, value: QueryModel) -> Scope {
    match variable {
        Some(name) => scope.insert(name@, value),
        None => scope,
    }
}

proof fn the_step_is_followed(
    world: World,
    pattern: RelationshipPattern,
    scope: Scope,
    left: NodeModel,
    right: NodeModel,
    edge: EdgeModel,
)
    requires
        world.linked.len() < u32::MAX,
        world.root.edges.len() > 0,
        world.root.edges.last() == edge,
        is_new_edge(world.root.edges.drop_last(), edge.id),
        pattern.length is None,
        pattern.properties@.len() == 0,
        pattern.types@.len() == 1,
        edge.relation == pattern.types@[0]@,
        pattern.direction == Direction::Outgoing ==> edge.source == ReferenceModel::Local(left.id)
            && edge.target == ReferenceModel::Local(right.id),
        pattern.direction == Direction::Incoming ==> edge.source == ReferenceModel::Local(right.id)
            && edge.target == ReferenceModel::Local(left.id),
        pattern.direction != Direction::Either,
    ensures
        reached_from(world, Scoped { source: 0, id: left.id }, pattern, scope) matches Ok(found)
            ==> found.contains(
            (seq![Scoped { source: 0, id: edge.id }], Scoped { source: 0, id: right.id }),
        ),
{
    let from: ScopedNode = Scoped { source: 0, id: left.id };
    let to: ScopedNode = Scoped { source: 0, id: right.id };
    let over: ScopedEdge = Scoped { source: 0, id: edge.id };
    let place = world.root.edges.len() - 1;
    let edges = world.root.edges;
    assert(world.graph(0) == world.root);
    assert forall|j: int| 0 <= j < edges.len() && j != place implies (#[trigger] edges[j]).id != edge.id by {
        assert(edges.drop_last()[j] == edges[j]);
    }
    a_handle_names_its_edge(world, over, place);
    assert(edge_of_handle(world, over) == Some(edge));
    an_edge_has_one_of_the_types(world, edge, pattern, scope);
    assert(lists_type(pattern.types@, edge.relation)) by {
        assert(pattern.types@[0]@ == edge.relation);
    }
    let forward = pattern.direction == Direction::Outgoing;
    assert(followed(world, from, pattern, scope, forward, 0, place, (over, to)));
    steps_go_the_way_of_the_arrow(world, from, pattern, scope, (over, to));
    let reached: Reached = (seq![over], to);
    one_edge_where_there_is_no_length(world, from, pattern, scope, reached);
    if let Ok(found) = reached_from(world, from, pattern, scope) {
        assert(steps_from(world, from, pattern, scope) is Ok);
        assert(reached.0[0] == over);
        assert(crate::matching::admits(world, pattern, scope, from, over, to));
    }
}

/// A step of one edge with new nodes at both ends that was just created is found by a match of
/// that same pattern, in whichever direction it points: the match names the left node, the
/// right node and the edge.
pub proof fn what_was_created_is_matched(
    state: Written,
    pattern: Pattern,
    values: PatternModel,
    range: SourceRange,
    minted: Minted,
    world: World,
    base: Scope,
)
    requires
        are_identifiers(minted),
        pattern.steps@.len() == 1,
        pattern.path_variable is None,
        pattern.start.properties@.len() == 0,
        pattern.steps@[0].0.properties@.len() == 0,
        pattern.steps@[0].0.length is None,
        pattern.steps@[0].1.properties@.len() == 0,
        is_free(state.scope, pattern.start.variable),
        is_free(state.scope, pattern.steps@[0].1.variable),
        is_free(base, pattern.start.variable),
        is_free(base, pattern.steps@[0].1.variable),
        (pattern.start.variable is Some && pattern.steps@[0].1.variable is Some)
            ==> pattern.start.variable->0@ != pattern.steps@[0].1.variable->0@,
        pattern_created(state, pattern, values, range, minted).1 is Ok,
        world.root == pattern_created(state, pattern, values, range, minted).0.graph,
        world.linked.len() < u32::MAX,
    ensures
        ({
            let count = state.graph.nodes.len() as int;
            let left = world.root.nodes[count];
            let right = world.root.nodes[count + 1];
            let edge = world.root.edges[state.graph.edges.len() as int];
            let first = naming(
                base,
                pattern.start.variable,
                QueryModel::Node(Scoped { source: 0, id: left.id }),
            );
            let second = naming(
                first,
                pattern.steps@[0].1.variable,
                QueryModel::Node(Scoped { source: 0, id: right.id }),
            );
            let row = naming(
                second,
                pattern.steps@[0].0.variable,
                QueryModel::Relationship(Scoped { source: 0, id: edge.id }),
            );
            matched(world, pattern, base) matches Ok(rows) ==> rows.contains(row)
        }),
{
    a_created_step_goes_the_way_of_its_arrow(state, pattern, values, range, minted);
    let count = state.graph.nodes.len() as int;
    let nodes = world.root.nodes;
    let edges = world.root.edges;
    let left = nodes[count];
    let right = nodes[count + 1];
    let edge = edges[state.graph.edges.len() as int];
    let relationship = pattern.steps@[0].0;
    let end = pattern.steps@[0].1;
    let from: ScopedNode = Scoped { source: 0, id: left.id };
    let to: ScopedNode = Scoped { source: 0, id: right.id };
    let over: ScopedEdge = Scoped { source: 0, id: edge.id };
    let one = naming(base, pattern.start.variable, QueryModel::Node(from));
    let two = naming(one, end.variable, QueryModel::Node(to));
    let row = naming(two, relationship.variable, QueryModel::Relationship(over));
    let first = Partial { scope: one, current: from, nodes: seq![from], edges: Seq::empty() };
    let last = Partial {
        scope: row,
        current: to,
        nodes: seq![from].push(to),
        edges: Seq::<ScopedEdge>::empty() + seq![over],
    };
    assert(world.graph(0) == world.root);
    created_is_one_of_a_kind(state.graph.nodes, nodes, left, right);
    the_start_is_found(world, pattern, base, left, first);
    assert(edges.drop_last() =~= state.graph.edges);
    if let Ok(rows) = matched(world, pattern, base) {
        the_types_are_one(state, pattern, values, range, minted);
        the_step_is_followed(world, relationship, one, left, right, edge);
        a_handle_names_its_node(world, to, count + 1);
        assert(node_of_handle(world, to) == Some(right));
        a_node_has_every_label(world, right, end, one);
        assert forall|i: int| 0 <= i < end.labels@.len() implies right.labels.contains(
            (#[trigger] end.labels@[i])@,
        ) by {}
        reaching(world, pattern, base, first);
        assert(reached_from(world, from, relationship, one) is Ok);
        let reaches = reached_from(world, from, relationship, one)->Ok_0;
        let k = choose|k: int| 0 <= k < reaches.len() && reaches[k] == (seq![over], to);
        assert(goes_on_to(world, first, relationship, end, reaches[k], last)) by {
            assert(bound_as_named(one, end.variable, to));
        }
        assert(one_step_on(world, first, relationship, end, last));
        assert(goes_through(world, pattern.steps@, 1, last, last));
        assert(goes_through(world, pattern.steps@, 0, first, last));
        a_pattern_gives_its_matches(world, pattern, base, row);
    }
}

/// A free variable comes to name a node.
spec fn bound_as_named(scope: Scope, variable: Option<String>, handle: ScopedNode) -> bool {
    crate::matching::bound_node(scope, variable, handle) == Some(
        naming(scope, variable, QueryModel::Node(handle)),
    )
}

proof fn created_is_one_of_a_kind(
    before: Seq<NodeModel>,
    after: Seq<NodeModel>,
    left: NodeModel,
    right: NodeModel,
)
    requires
        after == before.push(left).push(right),
        is_new_node(before, left.id),
        is_new_node(before.push(left), right.id),
    ensures
        forall|j: int| 0 <= j < after.len() && j != before.len() ==> (#[trigger] after[j]).id != left.id,
        forall|j: int|
            0 <= j < after.len() && j != before.len() + 1 ==> (#[trigger] after[j]).id != right.id,
{
    assert(before.push(left)[before.len() as int].id != right.id);
    assert forall|j: int| 0 <= j < after.len() && j != before.len() implies (#[trigger] after[j]).id
        != left.id by {
        if j < before.len() {
            assert(before[j].id != left.id);
        }
    }
    assert forall|j: int| 0 <= j < after.len() && j != before.len() + 1 implies (
    #[trigger] after[j]).id != right.id by {
        assert(before.push(left)[j].id != right.id);
    }
}

proof fn the_start_is_found(
    world: World,
    pattern: Pattern,
    base: Scope,
    left: NodeModel,
    first: Partial,
)
    requires
        world.linked.len() < u32::MAX,
        world.root.nodes.contains(left),
        forall|i: int|
            0 <= i < world.root.nodes.len() && (#[trigger] world.root.nodes[i]).id == left.id
                ==> world.root.nodes[i] == left,
        pattern.start.properties@.len() == 0,
        forall|i: int|
            0 <= i < pattern.start.labels@.len() ==> left.labels.contains(
                (#[trigger] pattern.start.labels@[i])@,
            ),
        is_free(base, pattern.start.variable),
        first == (Partial {
            scope: naming(
                base,
                pattern.start.variable,
                QueryModel::Node(Scoped { source: 0, id: left.id }),
            ),
            current: Scoped { source: 0, id: left.id },
            nodes: seq![Scoped { source: 0, id: left.id }],
            edges: Seq::empty(),
        }),
    ensures
        starts_somewhere(world, pattern.start, base, first),
{
    let count = world.linked.len() as int + 1;
    let from: ScopedNode = Scoped { source: 0, id: left.id };
    assert(world.graph(0) == world.root);
    every_node_is_a_candidate(world, count);
    a_candidate_is_the_node_it_names(world, count);
    let found = candidates_of(world, count);
    let k = choose|k: int| 0 <= k < world.root.nodes.len() && world.root.nodes[k] == left;
    assert(world.root.nodes[k].id == left.id);
    assert(holds_node(world.graph(0), left.id));
    let i = choose|i: int| 0 <= i < found.len() && (#[trigger] found[i]).0 == from;
    assert(found[i].1 == left) by {
        let m = choose|m: int| 0 <= m < world.root.nodes.len() && world.root.nodes[m] == found[i].1;
        assert(world.root.nodes[m].id == left.id);
    }
    a_node_has_every_label(world, left, pattern.start, base);
    assert(bound_as_named(base, pattern.start.variable, from));
    assert(starts_at(world, pattern.start, base, found[i], first));
}

proof fn the_types_are_one(
    state: Written,
    pattern: Pattern,
    values: PatternModel,
    range: SourceRange,
    minted: Minted,
)
    requires
        pattern.steps@.len() == 1,
        pattern_created(state, pattern, values, range, minted).1 is Ok,
    ensures
        pattern.steps@[0].0.types@.len() == 1,
{
    reveal(pattern_created);
    reveal_with_fuel(crate::mutate::steps_created, 2);
}

/// Where a pattern is matched at all, what is reached from a start of it is known.
proof fn reaching(world: World, pattern: Pattern, base: Scope, first: Partial)
    requires
        pattern.steps@.len() == 1,
        starts_somewhere(world, pattern.start, base, first),
        matched(world, pattern, base) is Ok,
    ensures
        reached_from(world, first.current, pattern.steps@[0].0, first.scope) is Ok,
{
    reveal(matched);
    reveal_with_fuel(crate::matching::through_steps, 2);
    let candidates = candidates_of(world, world.linked.len() as int + 1);
    let none = Seq::<Partial>::empty();
    let started = crate::matching::starts_from(world, pattern.start, base, candidates, 0, none)->Ok_0;
    crate::laws::rows::every_start_is_found(world, pattern.start, base, candidates, 0, none, first);
    let i = choose|i: int|
        0 <= i < candidates.len() && starts_at(world, pattern.start, base, #[trigger] candidates[i], first);
    assert(started.contains(first));
    let k = choose|k: int| 0 <= k < started.len() && started[k] == first;
    all_are_reached(
        world,
        started,
        0,
        pattern.steps@[0].0,
        pattern.steps@[0].1,
        Seq::empty(),
        k,
    );
}

proof fn all_are_reached(
    world: World,
    partials: Seq<Partial>,
    at: int,
    relationship: RelationshipPattern,
    pattern: crate::cypher::NodePattern,
    before: Seq<Partial>,
    k: int,
)
    requires
        0 <= at <= k < partials.len(),
        crate::matching::extended_all(world, partials, at, relationship, pattern, before) is Ok,
    ensures
        reached_from(world, partials[k].current, relationship, partials[k].scope) is Ok,
    decreases k - at,
{
    if at < k {
        let reaches = reached_from(
            world,
            partials[at].current,
            relationship,
            partials[at].scope,
        )->Ok_0;
        let more = crate::matching::extended_to_all(
            world,
            partials[at],
            relationship,
            pattern,
            reaches,
            0,
            before,
        )->Ok_0;
        all_are_reached(world, partials, at + 1, relationship, pattern, more, k);
    }
}

} // verus!
