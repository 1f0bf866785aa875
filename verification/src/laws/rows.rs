//! What the rows of a match are.

use crate::clauses::all_matched;
use crate::clauses::or_null;
use crate::clauses::patterns_matched;
use crate::clauses::patterns_or_null;
use crate::clauses::row_expanded;
use crate::clauses::row_matched;
use crate::clauses::rows_matched;
use crate::clauses::scopes_kept;
use crate::clauses::steps_or_null;
use crate::clauses::Fate;
use crate::cypher::Expression;
use crate::cypher::NodePattern;
use crate::cypher::Pattern;
use crate::cypher::QueryErrorModel;
use crate::cypher::RelationshipPattern;
use crate::evaluate::evaluated;
use crate::evaluate::node_of_handle;
use crate::evaluate::World;
use crate::graph::NodeModel;
use crate::matching::admits;
use crate::matching::bound_node;
use crate::matching::candidates_of;
use crate::matching::extended_all;
use crate::matching::extended_to;
use crate::matching::extended_to_all;
use crate::matching::finished;
use crate::matching::matched;
use crate::matching::node_matches;
use crate::matching::reached_from;
use crate::matching::relationship_value;
use crate::matching::starts_from;
use crate::matching::through_steps;
use crate::matching::Partial;
use crate::matching::Reached;
use crate::matching::Scope;
use crate::value::QueryModel;
use crate::value::ScopedEdge;
use crate::value::ScopedNode;
use vstd::prelude::*;

verus! {

pub proof fn pushed_contains<A>(items: Seq<A>, item: A, wanted: A)
    ensures
        items.push(item).contains(wanted) <==> items.contains(wanted) || wanted == item,
{
    let more = items.push(item);
    if items.contains(wanted) {
        let i = choose|i: int| 0 <= i < items.len() && items[i] == wanted;
        assert(more[i] == wanted);
    }
    if wanted == item {
        assert(more[items.len() as int] == wanted);
    }
    if more.contains(wanted) {
        let i = choose|i: int| 0 <= i < more.len() && more[i] == wanted;
        if i < items.len() {
            assert(items[i] == wanted);
        }
    }
}

pub proof fn joined_contains<A>(left: Seq<A>, right: Seq<A>, wanted: A)
    ensures
        (left + right).contains(wanted) <==> left.contains(wanted) || right.contains(wanted),
{
    let all = left + right;
    if left.contains(wanted) {
        let i = choose|i: int| 0 <= i < left.len() && left[i] == wanted;
        assert(all[i] == wanted);
    }
    if right.contains(wanted) {
        let i = choose|i: int| 0 <= i < right.len() && right[i] == wanted;
        assert(all[left.len() + i] == wanted);
    }
    if all.contains(wanted) {
        let i = choose|i: int| 0 <= i < all.len() && all[i] == wanted;
        if i < left.len() {
            assert(left[i] == wanted);
        } else {
            assert(right[i - left.len()] == wanted);
        }
    }
}

// -- Binding -----------------------------------------------------------------------

/// A variable of a node names the node that was found: it is bound to it where it was free,
/// stays where it named that node already, and refuses any other.
pub proof fn a_variable_names_one_node(scope: Scope, name: String, handle: ScopedNode)
    ensures
        bound_node(scope, None, handle) == Some(scope),
        !scope.contains_key(name@) ==> bound_node(scope, Some(name), handle) == Some(
            scope.insert(name@, QueryModel::Node(handle)),
        ),
        scope.contains_key(name@) && scope[name@] == QueryModel::Node(handle) ==> bound_node(
            scope,
            Some(name),
            handle,
        ) == Some(scope),
        scope.contains_key(name@) && scope[name@] != QueryModel::Node(handle) ==> bound_node(
            scope,
            Some(name),
            handle,
        ) is None,
{
}

// -- Where a match starts ----------------------------------------------------------

/// Whether a match starts at a node like this.
pub open spec fn starts_at(
    world: World,
    pattern: NodePattern,
    base: Scope,
    candidate: (ScopedNode, NodeModel),
    partial: Partial,
) -> bool {
    &&& node_matches(world, candidate.1, pattern, base) == Ok::<bool, QueryErrorModel>(true)
    &&& bound_node(base, pattern.variable, candidate.0) == Some(partial.scope)
    &&& partial.current == candidate.0
    &&& partial.nodes == seq![candidate.0]
    &&& partial.edges == Seq::<ScopedEdge>::empty()
}

pub proof fn every_start_is_found(
    world: World,
    pattern: NodePattern,
    base: Scope,
    candidates: Seq<(ScopedNode, NodeModel)>,
    at: int,
    before: Seq<Partial>,
    partial: Partial,
)
    requires
        0 <= at <= candidates.len(),
    ensures
        starts_from(world, pattern, base, candidates, at, before) matches Ok(found) ==> (
        found.contains(partial) <==> before.contains(partial) || exists|i: int|
            at <= i < candidates.len() && starts_at(
                world,
                pattern,
                base,
                #[trigger] candidates[i],
                partial,
            )),
    decreases candidates.len() - at,
{
    if at < candidates.len() {
        let (handle, node) = candidates[at];
        if let Ok(matches) = node_matches(world, node, pattern, base) {
            let next = if matches {
                match bound_node(base, pattern.variable, handle) {
                    Some(scope) => before.push(
                        Partial {
                            scope,
                            current: handle,
                            nodes: seq![handle],
                            edges: Seq::empty(),
                        },
                    ),
                    None => before,
                }
            } else {
                before
            };
            every_start_is_found(world, pattern, base, candidates, at + 1, next, partial);
            if let Some(scope) = bound_node(base, pattern.variable, handle) {
                pushed_contains(
                    before,
                    Partial { scope, current: handle, nodes: seq![handle], edges: Seq::empty() },
                    partial,
                );
            }
            assert(starts_at(world, pattern, base, candidates[at], partial) ==> next.contains(
                partial,
            ));
        }
    }
}

/// Whether a pattern admits the node of some source with a handle.
pub open spec fn admits_node(world: World, pattern: NodePattern, base: Scope, handle: ScopedNode) -> bool {
    exists|i: int|
        0 <= i < candidates_of(world, world.linked.len() as int + 1).len() && (
        #[trigger] candidates_of(world, world.linked.len() as int + 1)[i]).0 == handle
            && node_matches(
            world,
            candidates_of(world, world.linked.len() as int + 1)[i].1,
            pattern,
            base,
        ) == Ok::<bool, QueryErrorModel>(true)
}

/// A pattern of one node gives one row for each node of each source that it admits: the row it
/// started from, with the variable bound to that node.
pub proof fn a_node_pattern_gives_its_nodes(
    world: World,
    pattern: Pattern,
    base: Scope,
    name: String,
    row: Scope,
)
    requires
        pattern.steps@.len() == 0,
        pattern.path_variable is None,
        pattern.start.variable == Some(name),
        !base.contains_key(name@),
    ensures
        matched(world, pattern, base) matches Ok(rows) ==> (rows.contains(row) <==> exists|
            handle: ScopedNode,
        |
            #[trigger] admits_node(world, pattern.start, base, handle) && row == base.insert(
                name@,
                QueryModel::Node(handle),
            )),
{
    reveal(matched);
    let candidates = candidates_of(world, world.linked.len() as int + 1);
    let none = Seq::<Partial>::empty();
    if let Ok(started) = starts_from(world, pattern.start, base, candidates, 0, none) {
        let rows = matched(world, pattern, base)->Ok_0;
        if rows.contains(row) {
            let k = choose|k: int| 0 <= k < rows.len() && rows[k] == row;
            every_start_is_found(world, pattern.start, base, candidates, 0, none, started[k]);
            assert(started.contains(started[k]));
            let i = choose|i: int|
                0 <= i < candidates.len() && starts_at(
                    world,
                    pattern.start,
                    base,
                    #[trigger] candidates[i],
                    started[k],
                );
            assert(admits_node(world, pattern.start, base, candidates[i].0));
        }
        assert forall|handle: ScopedNode|
            #[trigger] admits_node(world, pattern.start, base, handle) && row == base.insert(
                name@,
                QueryModel::Node(handle),
            ) implies rows.contains(row) by {
            let i = choose|i: int|
                0 <= i < candidates.len() && (#[trigger] candidates[i]).0 == handle && node_matches(
                    world,
                    candidates[i].1,
                    pattern.start,
                    base,
                ) == Ok::<bool, QueryErrorModel>(true);
            let partial = Partial {
                scope: row,
                current: handle,
                nodes: seq![handle],
                edges: Seq::empty(),
            };
            every_start_is_found(world, pattern.start, base, candidates, 0, none, partial);
            assert(starts_at(world, pattern.start, base, candidates[i], partial));
            let k = choose|k: int| 0 <= k < started.len() && started[k] == partial;
            assert(rows[k] == row);
        }
    }
}

// -- How a match goes on -----------------------------------------------------------

/// Whether a match goes on over what was reached like this: the node there is one that the
/// pattern admits, and the variables are bound to it and to what led there.
pub open spec fn goes_on_to(
    world: World,
    partial: Partial,
    relationship: RelationshipPattern,
    pattern: NodePattern,
    reach: Reached,
    next: Partial,
) -> bool {
    &&& node_of_handle(world, reach.1) matches Some(node) && node_matches(
        world,
        node,
        pattern,
        partial.scope,
    ) == Ok::<bool, QueryErrorModel>(true)
    &&& bound_node(partial.scope, pattern.variable, reach.1) matches Some(scope) && next.scope == (
    match relationship.variable {
        Some(name) => scope.insert(name@, walked_value(relationship, reach.0)),
        None => scope,
    })
    &&& next.current == reach.1
    &&& next.nodes == partial.nodes.push(reach.1)
    &&& next.edges == partial.edges + reach.0
}

/// What a relationship variable names: the one relationship that was walked, or the list of
/// them where the pattern has a length.
pub open spec fn walked_value(pattern: RelationshipPattern, edges: Seq<ScopedEdge>) -> QueryModel {
    if pattern.length is None && edges.len() == 1 {
        QueryModel::Relationship(edges[0])
    } else {
        QueryModel::List(edges.map_values(|edge: ScopedEdge| QueryModel::Relationship(edge)))
    }
}

proof fn one_goes_on(
    world: World,
    partial: Partial,
    relationship: RelationshipPattern,
    pattern: NodePattern,
    reach: Reached,
    next: Partial,
)
    ensures
        extended_to(world, partial, relationship, pattern, reach) matches Ok(found) ==> (found
            == Some(next) <==> goes_on_to(world, partial, relationship, pattern, reach, next)),
{
    assert(relationship_value(relationship, reach.0) == walked_value(relationship, reach.0)) by {
        assert(Seq::new(reach.0.len(), |i: int| QueryModel::Relationship(reach.0[i]))
            =~= reach.0.map_values(|edge: ScopedEdge| QueryModel::Relationship(edge)));
    }
}

proof fn all_go_on(
    world: World,
    partial: Partial,
    relationship: RelationshipPattern,
    pattern: NodePattern,
    reaches: Seq<Reached>,
    at: int,
    before: Seq<Partial>,
    next: Partial,
)
    requires
        0 <= at <= reaches.len(),
    ensures
        extended_to_all(world, partial, relationship, pattern, reaches, at, before) matches Ok(found)
            ==> (found.contains(next) <==> before.contains(next) || exists|i: int|
            at <= i < reaches.len() && goes_on_to(
                world,
                partial,
                relationship,
                pattern,
                #[trigger] reaches[i],
                next,
            )),
    decreases reaches.len() - at,
{
    if at < reaches.len() {
        one_goes_on(world, partial, relationship, pattern, reaches[at], next);
        match extended_to(world, partial, relationship, pattern, reaches[at]) {
            Ok(Some(one)) => {
                all_go_on(
                    world,
                    partial,
                    relationship,
                    pattern,
                    reaches,
                    at + 1,
                    before.push(one),
                    next,
                );
                pushed_contains(before, one, next);
            },
            Ok(None) => {
                all_go_on(world, partial, relationship, pattern, reaches, at + 1, before, next);
            },
            Err(_) => {},
        }
        assert(extended_to(world, partial, relationship, pattern, reaches[at]) is Ok ==> (goes_on_to(
            world,
            partial,
            relationship,
            pattern,
            reaches[at],
            next,
        ) <==> extended_to(world, partial, relationship, pattern, reaches[at])->Ok_0 == Some(next)));
    }
}

/// Whether a match goes on from another over one step of a pattern.
pub open spec fn one_step_on(
    world: World,
    partial: Partial,
    relationship: RelationshipPattern,
    pattern: NodePattern,
    next: Partial,
) -> bool {
    reached_from(world, partial.current, relationship, partial.scope) matches Ok(reaches)
        && exists|k: int|
        0 <= k < reaches.len() && goes_on_to(
            world,
            partial,
            relationship,
            pattern,
            #[trigger] reaches[k],
            next,
        )
}

/// One step further are exactly the matches that go on from one there was, each over something
/// that the relationship pattern reaches.
pub proof fn a_step_goes_on_from_every_match(
    world: World,
    partials: Seq<Partial>,
    at: int,
    relationship: RelationshipPattern,
    pattern: NodePattern,
    before: Seq<Partial>,
    next: Partial,
)
    requires
        0 <= at <= partials.len(),
    ensures
        extended_all(world, partials, at, relationship, pattern, before) matches Ok(found) ==> (
        found.contains(next) <==> before.contains(next) || exists|i: int|
            at <= i < partials.len() && one_step_on(
                world,
                #[trigger] partials[i],
                relationship,
                pattern,
                next,
            )),
    decreases partials.len() - at,
{
    if at < partials.len() {
        if let Ok(reaches) = reached_from(
            world,
            partials[at].current,
            relationship,
            partials[at].scope,
        ) {
            all_go_on(world, partials[at], relationship, pattern, reaches, 0, before, next);
            if let Ok(more) = extended_to_all(
                world,
                partials[at],
                relationship,
                pattern,
                reaches,
                0,
                before,
            ) {
                a_step_goes_on_from_every_match(
                    world,
                    partials,
                    at + 1,
                    relationship,
                    pattern,
                    more,
                    next,
                );
                assert(one_step_on(world, partials[at], relationship, pattern, next) <==> exists|
                    k: int,
                |
                    0 <= k < reaches.len() && goes_on_to(
                        world,
                        partials[at],
                        relationship,
                        pattern,
                        #[trigger] reaches[k],
                        next,
                    ));
            }
        }
    }
}

/// Whether a match goes through the steps of a pattern from a place on, to the end.
pub open spec fn goes_through(
    world: World,
    steps: Seq<(RelationshipPattern, NodePattern)>,
    at: int,
    first: Partial,
    last: Partial,
) -> bool
    decreases steps.len() - at,
{
    if at < 0 || at >= steps.len() {
        first == last
    } else {
        exists|next: Partial| #[trigger]
            one_step_on(world, first, steps[at].0, steps[at].1, next) && goes_through(
                world,
                steps,
                at + 1,
                next,
                last,
            )
    }
}

/// A pattern is found exactly where a match goes through all of its steps, one after the other.
pub proof fn a_pattern_goes_through_its_steps(
    world: World,
    steps: Seq<(RelationshipPattern, NodePattern)>,
    at: int,
    partials: Seq<Partial>,
    last: Partial,
)
    requires
        0 <= at <= steps.len(),
    ensures
        through_steps(world, steps, at, partials) matches Ok(found) ==> (found.contains(last)
            <==> exists|i: int|
            0 <= i < partials.len() && goes_through(world, steps, at, #[trigger] partials[i], last)),
    decreases steps.len() - at,
{
    if at >= steps.len() {
        if partials.contains(last) {
            let i = choose|i: int| 0 <= i < partials.len() && partials[i] == last;
            assert(goes_through(world, steps, at, partials[i], last));
        }
    } else {
        let none = Seq::<Partial>::empty();
        let (relationship, pattern) = steps[at];
        if let Ok(next) = extended_all(world, partials, 0, relationship, pattern, none) {
            a_pattern_goes_through_its_steps(world, steps, at + 1, next, last);
            if exists|j: int| 0 <= j < next.len() && goes_through(world, steps, at + 1, #[trigger] next[j], last) {
                let j = choose|j: int|
                    0 <= j < next.len() && goes_through(world, steps, at + 1, #[trigger] next[j], last);
                a_step_goes_on_from_every_match(
                    world,
                    partials,
                    0,
                    relationship,
                    pattern,
                    none,
                    next[j],
                );
                assert(next.contains(next[j]));
                let i = choose|i: int|
                    0 <= i < partials.len() && one_step_on(
                        world,
                        #[trigger] partials[i],
                        relationship,
                        pattern,
                        next[j],
                    );
                assert(goes_through(world, steps, at, partials[i], last));
            }
            if exists|i: int| 0 <= i < partials.len() && goes_through(world, steps, at, #[trigger] partials[i], last) {
                let i = choose|i: int|
                    0 <= i < partials.len() && goes_through(world, steps, at, #[trigger] partials[i], last);
                let mid = choose|mid: Partial| #[trigger]
                    one_step_on(world, partials[i], steps[at].0, steps[at].1, mid) && goes_through(
                        world,
                        steps,
                        at + 1,
                        mid,
                        last,
                    );
                a_step_goes_on_from_every_match(
                    world,
                    partials,
                    0,
                    relationship,
                    pattern,
                    none,
                    mid,
                );
                let j = choose|j: int| 0 <= j < next.len() && next[j] == mid;
                assert(goes_through(world, steps, at + 1, next[j], last));
            }
        }
    }
}

/// The rows of a pattern are exactly those of the matches that start at a node it admits and go
/// through its steps. A path variable names the nodes and the relationships along the way.
pub proof fn a_pattern_gives_its_matches(world: World, pattern: Pattern, base: Scope, row: Scope)
    ensures
        matched(world, pattern, base) matches Ok(rows) ==> (rows.contains(row) <==> exists|
            first: Partial,
            last: Partial,
        |
            #[trigger] starts_somewhere(world, pattern.start, base, first) && #[trigger] goes_through(
                world,
                pattern.steps@,
                0,
                first,
                last,
            ) && row == (match pattern.path_variable {
                Some(name) => last.scope.insert(
                    name@,
                    QueryModel::Path { nodes: last.nodes, relationships: last.edges },
                ),
                None => last.scope,
            })),
{
    reveal(matched);
    let candidates = candidates_of(world, world.linked.len() as int + 1);
    let none = Seq::<Partial>::empty();
    if let Ok(started) = starts_from(world, pattern.start, base, candidates, 0, none) {
        if let Ok(partials) = through_steps(world, pattern.steps@, 0, started) {
            let rows = matched(world, pattern, base)->Ok_0;
            if rows.contains(row) {
                let k = choose|k: int| 0 <= k < rows.len() && rows[k] == row;
                let last = partials[k];
                assert(partials.contains(last));
                a_pattern_goes_through_its_steps(world, pattern.steps@, 0, started, last);
                let i = choose|i: int|
                    0 <= i < started.len() && goes_through(
                        world,
                        pattern.steps@,
                        0,
                        #[trigger] started[i],
                        last,
                    );
                assert(started.contains(started[i]));
                every_start_is_found(world, pattern.start, base, candidates, 0, none, started[i]);
                assert(starts_somewhere(world, pattern.start, base, started[i]));
                assert(row == finished(last, pattern.path_variable));
            }
            assert forall|first: Partial, last: Partial|
                #[trigger] starts_somewhere(world, pattern.start, base, first)
                    && #[trigger] goes_through(world, pattern.steps@, 0, first, last)
                    && row == finished(last, pattern.path_variable) implies rows.contains(row) by {
                every_start_is_found(world, pattern.start, base, candidates, 0, none, first);
                let i = choose|i: int| 0 <= i < started.len() && started[i] == first;
                assert(goes_through(world, pattern.steps@, 0, started[i], last));
                a_pattern_goes_through_its_steps(world, pattern.steps@, 0, started, last);
                let k = choose|k: int| 0 <= k < partials.len() && partials[k] == last;
                assert(rows[k] == row);
            }
        }
    }
}

/// Whether a match starts at some node of some source.
pub open spec fn starts_somewhere(
    world: World,
    pattern: NodePattern,
    base: Scope,
    partial: Partial,
) -> bool {
    let candidates = candidates_of(world, world.linked.len() as int + 1);
    exists|i: int|
        0 <= i < candidates.len() && starts_at(world, pattern, base, #[trigger] candidates[i], partial)
}

// -- Rows --------------------------------------------------------------------------

proof fn kept_scopes(
    world: World,
    predicate: Expression,
    scopes: Seq<Scope>,
    at: int,
    before: Seq<Scope>,
    row: Scope,
)
    requires
        0 <= at <= scopes.len(),
    ensures
        scopes_kept(world, predicate, scopes, at, before) matches Ok(found) ==> (found.contains(row)
            <==> before.contains(row) || exists|i: int|
            at <= i < scopes.len() && #[trigger] scopes[i] == row && evaluated(
                world,
                predicate,
                row,
                None,
            ) == Ok::<QueryModel, QueryErrorModel>(QueryModel::Boolean(true))),
    decreases scopes.len() - at,
{
    if at < scopes.len() {
        if let Ok(value) = evaluated(world, predicate, scopes[at], None) {
            if value == QueryModel::Boolean(true) {
                kept_scopes(world, predicate, scopes, at + 1, before.push(scopes[at]), row);
                pushed_contains(before, scopes[at], row);
            } else {
                kept_scopes(world, predicate, scopes, at + 1, before, row);
            }
        }
    }
}

/// A predicate keeps exactly the matches of which it is true: neither false nor null will do.
pub proof fn a_predicate_keeps_what_is_true(
    world: World,
    patterns: Seq<Pattern>,
    predicate: Expression,
    base: Scope,
    row: Scope,
)
    ensures
        row_expanded(world, patterns, Some(predicate), base) matches Ok(found) ==> (
        row_expanded(world, patterns, None, base) matches Ok(all) && (found.contains(row) <==> (
        all.contains(row) && evaluated(world, predicate, row, None) == Ok::<
            QueryModel,
            QueryErrorModel,
        >(QueryModel::Boolean(true))))),
{
    if let Ok(all) = patterns_matched(world, patterns, 0, seq![base]) {
        kept_scopes(world, predicate, all, 0, Seq::empty(), row);
        if all.contains(row) {
            let i = choose|i: int| 0 <= i < all.len() && all[i] == row;
            assert(all[i] == row);
        }
    }
}

proof fn all_scopes_matched(
    world: World,
    pattern: Pattern,
    scopes: Seq<Scope>,
    at: int,
    before: Seq<Scope>,
    row: Scope,
)
    requires
        0 <= at <= scopes.len(),
    ensures
        all_matched(world, pattern, scopes, at, before) matches Ok(found) ==> (found.contains(row)
            <==> before.contains(row) || exists|i: int|
            at <= i < scopes.len() && gives(world, pattern, #[trigger] scopes[i], row)),
    decreases scopes.len() - at,
{
    if at < scopes.len() {
        if let Ok(found) = matched(world, pattern, scopes[at]) {
            joined_contains(before, found, row);
            all_scopes_matched(world, pattern, scopes, at + 1, before + found, row);
            assert(gives(world, pattern, scopes[at], row) <==> found.contains(row));
        }
    }
}

/// Whether a pattern gives a row on top of another.
pub open spec fn gives(world: World, pattern: Pattern, base: Scope, row: Scope) -> bool {
    matched(world, pattern, base) matches Ok(rows) && rows.contains(row)
}

/// Several patterns are matched one on top of the other: each goes on from every row that the
/// one before it gave.
pub proof fn patterns_build_on_each_other(
    world: World,
    first: Pattern,
    second: Pattern,
    base: Scope,
    row: Scope,
)
    ensures
        row_expanded(world, seq![first], None, base) matches Ok(found) ==> (found.contains(row)
            <==> gives(world, first, base, row)),
        row_expanded(world, seq![first, second], None, base) matches Ok(found) ==> (found.contains(
            row,
        ) <==> exists|middle: Scope|
            #[trigger] gives(world, first, base, middle) && gives(world, second, middle, row)),
{
    reveal_with_fuel(patterns_matched, 4);
    let start = seq![base];
    let none = Seq::<Scope>::empty();
    assert(start[0] == base);
    all_scopes_matched(world, first, start, 0, none, row);
    if let Ok(middles) = all_matched(world, first, start, 0, none) {
        all_scopes_matched(world, second, middles, 0, none, row);
        assert forall|middle: Scope| #[trigger] gives(world, first, base, middle) implies middles.contains(
            middle,
        ) by {
            all_scopes_matched(world, first, start, 0, none, middle);
            assert(gives(world, first, start[0], middle));
        }
        assert forall|i: int| 0 <= i < middles.len() implies gives(
            world,
            first,
            base,
            #[trigger] middles[i],
        ) by {
            all_scopes_matched(world, first, start, 0, none, middles[i]);
            assert(middles.contains(middles[i]));
        }
        if exists|middle: Scope|
            #[trigger] gives(world, first, base, middle) && gives(world, second, middle, row) {
            let middle = choose|middle: Scope|
                #[trigger] gives(world, first, base, middle) && gives(world, second, middle, row);
            let i = choose|i: int| 0 <= i < middles.len() && middles[i] == middle;
            assert(gives(world, second, middles[i], row));
        }
    }
}

/// A match that is not optional gives what was found, and nothing where nothing was. An
/// optional one keeps the row where nothing was found, and then binds nothing anew but to null.
pub proof fn an_optional_match_keeps_the_row(
    world: World,
    patterns: Seq<Pattern>,
    predicate: Option<Expression>,
    row: Scope,
)
    ensures
        row_matched(world, false, patterns, predicate, row) == row_expanded(
            world,
            patterns,
            predicate,
            row,
        ),
        row_expanded(world, patterns, predicate, row) matches Ok(found) ==> (row_matched(
            world,
            true,
            patterns,
            predicate,
            row,
        ) matches Ok(kept) && (found.len() > 0 ==> kept == found) && (found.len() == 0
            ==> kept.len() == 1 && stays_in(row, kept[0]) && (forall|name: Seq<char>| #[trigger]
            kept[0].contains_key(name) && !row.contains_key(name) ==> kept[0][name]
                == QueryModel::Null) && forall|p: int|
            0 <= p < patterns.len() ==> ((#[trigger] patterns[p]).start.variable matches Some(
                name,
            ) ==> kept[0].contains_key(name@)))),
{
    nulls_are_added(row, patterns, patterns.len() as int);
}

/// Whether everything that is bound in a row is bound to the same in another.
pub open spec fn stays_in(row: Scope, wider: Scope) -> bool {
    forall|name: Seq<char>|
        #![trigger row.contains_key(name)]
        #![trigger wider.contains_key(name)]
        row.contains_key(name) ==> wider.contains_key(name) && wider[name] == row[name]
}

proof fn null_is_added(scope: Scope, variable: Option<String>)
    ensures
        stays_in(scope, or_null(scope, variable)),
        forall|name: Seq<char>| #[trigger]
            or_null(scope, variable).contains_key(name) && !scope.contains_key(name) ==> or_null(
                scope,
                variable,
            )[name] == QueryModel::Null,
        variable matches Some(name) ==> or_null(scope, variable).contains_key(name@),
{
}

proof fn step_nulls_are_added(
    scope: Scope,
    steps: Seq<(RelationshipPattern, NodePattern)>,
    count: int,
)
    requires
        0 <= count <= steps.len(),
    ensures
        stays_in(scope, steps_or_null(scope, steps, count)),
        forall|name: Seq<char>| #[trigger]
            steps_or_null(scope, steps, count).contains_key(name) && !scope.contains_key(name)
                ==> steps_or_null(scope, steps, count)[name] == QueryModel::Null,
        forall|s: int|
            0 <= s < count ==> ((#[trigger] steps[s]).1.variable matches Some(name)
                ==> steps_or_null(scope, steps, count).contains_key(name@)) && (
            steps[s].0.variable matches Some(name) ==> steps_or_null(
                scope,
                steps,
                count,
            ).contains_key(name@)),
    decreases count,
{
    if count > 0 {
        step_nulls_are_added(scope, steps, count - 1);
        let before = steps_or_null(scope, steps, count - 1);
        let middle = or_null(before, steps[count - 1].0.variable);
        null_is_added(before, steps[count - 1].0.variable);
        null_is_added(middle, steps[count - 1].1.variable);
    }
}

proof fn nulls_are_added(row: Scope, patterns: Seq<Pattern>, count: int)
    requires
        0 <= count <= patterns.len(),
    ensures
        stays_in(row, patterns_or_null(row, patterns, count)),
        forall|name: Seq<char>| #[trigger]
            patterns_or_null(row, patterns, count).contains_key(name) && !row.contains_key(name)
                ==> patterns_or_null(row, patterns, count)[name] == QueryModel::Null,
        forall|p: int|
            0 <= p < count ==> ((#[trigger] patterns[p]).start.variable matches Some(name)
                ==> patterns_or_null(row, patterns, count).contains_key(name@)),
    decreases count,
{
    if count > 0 {
        nulls_are_added(row, patterns, count - 1);
        let before = patterns_or_null(row, patterns, count - 1);
        let pattern = patterns[count - 1];
        let middle = or_null(before, pattern.path_variable);
        let third = or_null(middle, pattern.start.variable);
        null_is_added(before, pattern.path_variable);
        null_is_added(middle, pattern.start.variable);
        step_nulls_are_added(third, pattern.steps@, pattern.steps@.len() as int);
        let last = steps_or_null(third, pattern.steps@, pattern.steps@.len() as int);
        assert(patterns_or_null(row, patterns, count) == last);
        assert forall|p: int| 0 <= p < count implies ((#[trigger] patterns[p]).start.variable matches Some(
            name,
        ) ==> last.contains_key(name@)) by {
            if let Some(name) = patterns[p].start.variable {
                assert(third.contains_key(name@));
            }
        }
    }
}

/// What a match makes of rows is what it makes of each, one behind the other.
pub proof fn rows_are_matched_one_by_one(
    world: World,
    optional: bool,
    patterns: Seq<Pattern>,
    predicate: Option<Expression>,
    rows: Seq<Scope>,
    at: int,
    asked: int,
    fate: Fate,
    before: Seq<Scope>,
    row: Scope,
)
    requires
        0 <= at <= rows.len(),
    ensures
        rows_matched(world, optional, patterns, predicate, rows, at, asked, fate, before) matches Ok(
            found,
        ) ==> (found.contains(row) <==> before.contains(row) || exists|i: int|
            at <= i < rows.len() && made_of(
                world,
                optional,
                patterns,
                predicate,
                #[trigger] rows[i],
                row,
            )),
    decreases rows.len() - at,
{
    if at < rows.len() {
        if let Ok(found) = row_matched(world, optional, patterns, predicate, rows[at]) {
            joined_contains(before, found, row);
            rows_are_matched_one_by_one(
                world,
                optional,
                patterns,
                predicate,
                rows,
                at + 1,
                asked,
                fate,
                before + found,
                row,
            );
            assert(made_of(world, optional, patterns, predicate, rows[at], row) <==> found.contains(
                row,
            ));
        }
    }
}

/// Whether a match makes a row of another.
pub open spec fn made_of(
    world: World,
    optional: bool,
    patterns: Seq<Pattern>,
    predicate: Option<Expression>,
    base: Scope,
    row: Scope,
) -> bool {
    row_matched(world, optional, patterns, predicate, base) matches Ok(found) && found.contains(row)
}

} // verus!
