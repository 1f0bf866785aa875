//! Finding what a pattern describes.
//!
//! Every source contributes candidates, which is what makes a match federated. An edge whose
//! endpoint names a source that was not opened stays in its own source's records, and a
//! traversal simply cannot leave through it.

use crate::bindings::found_in;
use crate::bindings::Bindings;
use crate::cypher::meaningless;
use crate::cypher::unbound;
use crate::cypher::Direction;
use crate::cypher::Expression;
use crate::cypher::LengthRange;
use crate::cypher::NodePattern;
use crate::cypher::Pattern;
use crate::cypher::QueryError;
use crate::cypher::QueryErrorModel;
use crate::cypher::RelationshipPattern;
use crate::evaluate::edge_of_handle;
use crate::evaluate::evaluated;
use crate::evaluate::find_property;
use crate::evaluate::node_of_handle;
use crate::evaluate::property_at;
use crate::evaluate::Executor;
use crate::evaluate::World;
use crate::evidence::SourceRange;
use crate::graph::pairs;
use crate::graph::Edge;
use crate::graph::EdgeModel;
use crate::graph::Node;
use crate::graph::NodeModel;
use crate::graph::NodeReference;
use crate::graph::ReferenceModel;
use crate::id::LocalNodeId;
use crate::name::Label;
use crate::name::PropertyKey;
use crate::order::in_sequence;
use crate::order::shown;
use crate::order::sorted;
use crate::property::PropertyModel;
use crate::property::PropertyValue;
use crate::text::joined;
use crate::text::same;
use crate::text::views;
use crate::text::views_push;
use crate::value::copy_handles;
use crate::value::equal;
use crate::value::list_value;
use crate::value::of_property;
use crate::value::QueryModel;
use crate::value::QueryValue;
use crate::value::Scoped;
use crate::value::ScopedEdge;
use crate::value::ScopedNode;
use vstd::prelude::*;
use vstd::string::StringExecFns;

verus! {

/// What a row has bound.
pub type Scope = Map<Seq<char>, QueryModel>;

// -- Endpoints ---------------------------------------------------------------------

/// The place of the linked source with a locator, from `at` on.
pub open spec fn source_index(
    linked: Seq<(Seq<char>, crate::graph::GraphModel)>,
    locator: Seq<char>,
    at: int,
) -> Option<int>
    decreases linked.len() - at,
{
    if at < 0 || at >= linked.len() {
        None
    } else if linked[at].0 == locator {
        Some(at)
    } else {
        source_index(linked, locator, at + 1)
    }
}

/// The node an endpoint of an edge of a source names, or `None` where its source was not
/// opened.
pub open spec fn endpoint_of(world: World, reference: ReferenceModel, own: int) -> Option<
    ScopedNode,
> {
    match reference {
        ReferenceModel::Local(id) => Some(Scoped { source: own as u32, id }),
        ReferenceModel::External(scoped) => match source_index(world.linked, scoped.source, 0) {
            Some(at) => Some(Scoped { source: (at + 1) as u32, id: scoped.local }),
            None => None,
        },
    }
}

// -- Filters -----------------------------------------------------------------------

/// Whether stored properties satisfy an inline map from `at` on. A value that is null is
/// refused, because no stored property can equal it.
pub open spec fn properties_match(
    world: World,
    stored: Seq<(Seq<char>, PropertyModel)>,
    wanted: Seq<(String, Expression)>,
    at: int,
    scope: Scope,
) -> Result<bool, QueryErrorModel>
    decreases wanted.len() - at,
{
    if at < 0 || at >= wanted.len() {
        Ok(true)
    } else {
        match evaluated(world, wanted[at].1, scope, None) {
            Err(wrong) => Err(wrong),
            Ok(expected) => if expected == QueryModel::Null {
                Err(
                    meaningless(
                        "the property `"@ + wanted[at].0@
                            + "` in a pattern is null, and no stored property can equal null"@,
                        SourceRange::at_origin(),
                    ),
                )
            } else {
                match property_at(stored, wanted[at].0@, 0) {
                    Some(place) => if equal(of_property(stored[place].1), expected) {
                        properties_match(world, stored, wanted, at + 1, scope)
                    } else {
                        Ok(false)
                    },
                    None => Ok(false),
                }
            },
        }
    }
}

/// Whether a node carries every wanted label, from `at` on.
pub open spec fn labels_match(labels: Seq<Seq<char>>, wanted: Seq<String>, at: int) -> bool
    decreases wanted.len() - at,
{
    if at < 0 || at >= wanted.len() {
        true
    } else {
        labels.contains(wanted[at]@) && labels_match(labels, wanted, at + 1)
    }
}

/// Whether a node is what a pattern describes.
pub open spec fn node_matches(
    world: World,
    node: NodeModel,
    pattern: NodePattern,
    scope: Scope,
) -> Result<bool, QueryErrorModel> {
    if !labels_match(node.labels, pattern.labels@, 0) {
        Ok(false)
    } else {
        properties_match(world, node.properties, pattern.properties@, 0, scope)
    }
}

/// Whether a type is among the wanted ones, from `at` on.
pub open spec fn type_among(relation: Seq<char>, wanted: Seq<String>, at: int) -> bool
    decreases wanted.len() - at,
{
    if at < 0 || at >= wanted.len() {
        false
    } else {
        relation == wanted[at]@ || type_among(relation, wanted, at + 1)
    }
}

/// Whether an edge is what a pattern describes.
pub open spec fn edge_matches(
    world: World,
    edge: EdgeModel,
    pattern: RelationshipPattern,
    scope: Scope,
) -> Result<bool, QueryErrorModel> {
    if pattern.types@.len() > 0 && !type_among(edge.relation, pattern.types@, 0) {
        Ok(false)
    } else {
        properties_match(world, edge.properties, pattern.properties@, 0, scope)
    }
}

// -- Edges -------------------------------------------------------------------------

/// What one edge record of a source leads to, where it leaves `from`.
pub open spec fn step_over(
    world: World,
    from: ScopedNode,
    pattern: RelationshipPattern,
    scope: Scope,
    forward: bool,
    source: int,
    record: EdgeModel,
) -> Result<Option<(ScopedEdge, ScopedNode)>, QueryErrorModel> {
    let anchor = if forward {
        record.source
    } else {
        record.target
    };
    let handle = Scoped { source: source as u32, id: record.id };
    if endpoint_of(world, anchor, source) != Some(from) {
        Ok(None)
    } else {
        match edge_of_handle(world, handle) {
            None => Ok(None),
            Some(edge) => match edge_matches(world, edge, pattern, scope) {
                Err(wrong) => Err(wrong),
                Ok(matches) => if !matches {
                    Ok(None)
                } else {
                    let reference = if forward {
                        edge.target
                    } else {
                        edge.source
                    };
                    match endpoint_of(world, reference, source) {
                        Some(other) => Ok(Some((handle, other))),
                        None => Ok(None),
                    }
                },
            },
        }
    }
}

/// What the edge records of one source from `at` on lead to, behind what was found before.
pub open spec fn steps_in_source(
    world: World,
    from: ScopedNode,
    pattern: RelationshipPattern,
    scope: Scope,
    forward: bool,
    source: int,
    at: int,
    before: Seq<(ScopedEdge, ScopedNode)>,
) -> Result<Seq<(ScopedEdge, ScopedNode)>, QueryErrorModel>
    decreases world.graph(source).edges.len() - at,
{
    let edges = world.graph(source).edges;
    if at < 0 || at >= edges.len() {
        Ok(before)
    } else {
        match step_over(world, from, pattern, scope, forward, source, edges[at]) {
            Err(wrong) => Err(wrong),
            Ok(None) => steps_in_source(
                world,
                from,
                pattern,
                scope,
                forward,
                source,
                at + 1,
                before,
            ),
            Ok(Some(step)) => steps_in_source(
                world,
                from,
                pattern,
                scope,
                forward,
                source,
                at + 1,
                before.push(step),
            ),
        }
    }
}

/// What the edges of the sources from `source` on lead to, behind what was found before.
pub open spec fn steps_in_sources(
    world: World,
    from: ScopedNode,
    pattern: RelationshipPattern,
    scope: Scope,
    forward: bool,
    source: int,
    before: Seq<(ScopedEdge, ScopedNode)>,
) -> Result<Seq<(ScopedEdge, ScopedNode)>, QueryErrorModel>
    decreases world.linked.len() + 1 - source,
{
    if source > world.linked.len() {
        Ok(before)
    } else {
        match steps_in_source(world, from, pattern, scope, forward, source, 0, before) {
            Err(wrong) => Err(wrong),
            Ok(found) => steps_in_sources(
                world,
                from,
                pattern,
                scope,
                forward,
                source + 1,
                found,
            ),
        }
    }
}

/// Every edge leaving `from` that the pattern admits, with the node it reaches.
pub open spec fn steps_from(
    world: World,
    from: ScopedNode,
    pattern: RelationshipPattern,
    scope: Scope,
) -> Result<Seq<(ScopedEdge, ScopedNode)>, QueryErrorModel> {
    let first = if pattern.direction == Direction::Incoming {
        Ok(Seq::empty())
    } else {
        steps_in_sources(world, from, pattern, scope, true, 0, Seq::empty())
    };
    match first {
        Err(wrong) => Err(wrong),
        Ok(found) => if pattern.direction == Direction::Outgoing {
            Ok(found)
        } else {
            steps_in_sources(world, from, pattern, scope, false, 0, found)
        },
    }
}

fn same_reference(reference: Option<ScopedNode>, wanted: ScopedNode) -> (answer: bool)
    ensures
        answer == (reference == Some(wanted)),
{
    match reference {
        Some(found) => found.same(&wanted),
        None => false,
    }
}

fn carries(labels: &Vec<Label>, wanted: &str) -> (answer: bool)
    ensures
        answer == views(labels@).contains(wanted@),
{
    let ghost models = views(labels@);
    let mut at: usize = 0;
    while at < labels.len()
        invariant
            at <= labels@.len(),
            models == views(labels@),
            forall|i: int| 0 <= i < at ==> #[trigger] models[i] != wanted@,
        decreases labels@.len() - at,
    {
        assert(models[at as int] == labels@[at as int]@);
        if same(labels[at].as_str(), wanted) {
            return true;
        }
        at = at + 1;
    }
    false
}

fn carries_all(labels: &Vec<Label>, wanted: &Vec<String>) -> (answer: bool)
    ensures
        answer == labels_match(views(labels@), wanted@, 0),
{
    let ghost models = views(labels@);
    let mut at: usize = 0;
    while at < wanted.len()
        invariant
            at <= wanted@.len(),
            models == views(labels@),
            labels_match(models, wanted@, 0) == labels_match(models, wanted@, at as int),
        decreases wanted@.len() - at,
    {
        if !carries(labels, wanted[at].as_str()) {
            return false;
        }
        at = at + 1;
    }
    true
}

fn among_types(relation: &str, wanted: &Vec<String>) -> (answer: bool)
    ensures
        answer == type_among(relation@, wanted@, 0),
{
    let mut at: usize = 0;
    while at < wanted.len()
        invariant
            at <= wanted@.len(),
            type_among(relation@, wanted@, 0) == type_among(relation@, wanted@, at as int),
        decreases wanted@.len() - at,
    {
        if same(relation, wanted[at].as_str()) {
            return true;
        }
        at = at + 1;
    }
    false
}

impl<'a> Executor<'a> {
    fn index_of(&self, locator: &str) -> (found: Option<u32>)
        requires
            self@.linked.len() < u32::MAX,
        ensures
            match found {
                Some(at) => source_index(self@.linked, locator@, 0) == Some(at - 1),
                None => source_index(self@.linked, locator@, 0) is None,
            },
    {
        let ghost models = self@.linked;
        let mut at: usize = 0;
        while at < self.linked.len()
            invariant
                at <= self.linked@.len(),
                models == self@.linked,
                models.len() < u32::MAX,
                source_index(models, locator@, 0) == source_index(models, locator@, at as int),
            decreases self.linked@.len() - at,
        {
            assert(models[at as int] == self.linked@[at as int]@);
            if same(self.linked[at].locator.as_str(), locator) {
                return Some((at + 1) as u32);
            }
            at = at + 1;
        }
        None
    }

    fn endpoint(&self, reference: &NodeReference, own: u32) -> (found: Option<ScopedNode>)
        requires
            self@.linked.len() < u32::MAX,
        ensures
            found == endpoint_of(self@, reference@, own as int),
    {
        match reference {
            NodeReference::Local(id) => Some(Scoped { source: own, id: *id }),
            NodeReference::External(scoped) => match self.index_of(scoped.source.as_str()) {
                Some(source) => Some(Scoped { source, id: scoped.local }),
                None => None,
            },
        }
    }

    fn properties_match(
        &self,
        stored: &Vec<(PropertyKey, PropertyValue)>,
        wanted: &Vec<(String, Expression)>,
        bindings: &Bindings,
    ) -> (made: Result<bool, QueryError>)
        ensures
            match made {
                Ok(answer) => properties_match(
                    self@,
                    pairs(stored@),
                    wanted@,
                    0,
                    bindings@,
                ) matches Ok(model) && model == answer,
                Err(error) => properties_match(
                    self@,
                    pairs(stored@),
                    wanted@,
                    0,
                    bindings@,
                ) matches Err(wrong) && wrong == error@,
            },
    {
        let ghost world = self@;
        let ghost models = pairs(stored@);
        let mut at: usize = 0;
        while at < wanted.len()
            invariant
                at <= wanted@.len(),
                world == self@,
                models == pairs(stored@),
                properties_match(world, models, wanted@, 0, bindings@) == properties_match(
                    world,
                    models,
                    wanted@,
                    at as int,
                    bindings@,
                ),
            decreases wanted@.len() - at,
        {
            let pair = &wanted[at];
            let expected = match self.evaluate(&pair.1, bindings) {
                Err(error) => return Err(error),
                Ok(value) => value,
            };
            if expected.is_null() {
                let mut message = joined("the property `", pair.0.as_str());
                message.append("` in a pattern is null, and no stored property can equal null");
                return Err(unbound(message.as_str()));
            }
            match find_property(stored, pair.0.as_str()) {
                None => {
                    return Ok(false);
                }
                Some(place) => {
                    let found = QueryValue::from_property(&stored[place].1);
                    assert(models[place as int].1 == stored@[place as int].1@);
                    if !found.is_equal(&expected) {
                        return Ok(false);
                    }
                }
            }
            at = at + 1;
        }
        Ok(true)
    }

    fn node_matches(&self, node: &Node, pattern: &NodePattern, bindings: &Bindings) -> (made: Result<
        bool,
        QueryError,
    >)
        ensures
            match made {
                Ok(answer) => node_matches(self@, node@, *pattern, bindings@) matches Ok(model)
                    && model == answer,
                Err(error) => node_matches(self@, node@, *pattern, bindings@) matches Err(wrong)
                    && wrong == error@,
            },
    {
        if !carries_all(&node.labels, &pattern.labels) {
            return Ok(false);
        }
        self.properties_match(&node.properties, &pattern.properties, bindings)
    }

    fn step(
        &self,
        from: ScopedNode,
        pattern: &RelationshipPattern,
        bindings: &Bindings,
        forward: bool,
        source: u32,
        record: &Edge,
    ) -> (made: Result<Option<(ScopedEdge, ScopedNode)>, QueryError>)
        requires
            self@.linked.len() < u32::MAX,
        ensures
            match made {
                Ok(found) => step_over(
                    self@,
                    from,
                    *pattern,
                    bindings@,
                    forward,
                    source as int,
                    record@,
                ) matches Ok(model) && model == found,
                Err(error) => step_over(
                    self@,
                    from,
                    *pattern,
                    bindings@,
                    forward,
                    source as int,
                    record@,
                ) matches Err(wrong) && wrong == error@,
            },
    {
        let anchor = if forward {
            &record.source
        } else {
            &record.target
        };
        if !same_reference(self.endpoint(anchor, source), from) {
            return Ok(None);
        }
        let handle = Scoped { source, id: record.id };
        let edge = match self.edge(handle) {
            None => return Ok(None),
            Some(found) => found,
        };
        if pattern.types.len() > 0 && !among_types(edge.relation.as_str(), &pattern.types) {
            return Ok(None);
        }
        match self.properties_match(&edge.properties, &pattern.properties, bindings) {
            Err(error) => {
                return Err(error);
            }
            Ok(matches) => {
                if !matches {
                    return Ok(None);
                }
            }
        }
        let reference = if forward {
            &edge.target
        } else {
            &edge.source
        };
        match self.endpoint(reference, source) {
            Some(other) => Ok(Some((handle, other))),
            None => Ok(None),
        }
    }

    /// Adds what the edges lead to, in one direction.
    fn scan(
        &self,
        from: ScopedNode,
        pattern: &RelationshipPattern,
        bindings: &Bindings,
        forward: bool,
        found: &mut Vec<(ScopedEdge, ScopedNode)>,
    ) -> (made: Result<(), QueryError>)
        requires
            self@.linked.len() < u32::MAX,
        ensures
            match made {
                Ok(_) => steps_in_sources(
                    self@,
                    from,
                    *pattern,
                    bindings@,
                    forward,
                    0,
                    old(found)@,
                ) matches Ok(model) && model == final(found)@,
                Err(error) => steps_in_sources(
                    self@,
                    from,
                    *pattern,
                    bindings@,
                    forward,
                    0,
                    old(found)@,
                ) matches Err(wrong) && wrong == error@,
            },
    {
        let ghost world = self@;
        let ghost first = found@;
        let count: usize = self.linked.len();
        let mut source: usize = 0;
        while source <= count
            invariant
                world == self@,
                count == self.linked@.len(),
                world.linked.len() == count,
                count < u32::MAX,
                source <= count + 1,
                first == old(found)@,
                steps_in_sources(world, from, *pattern, bindings@, forward, 0, first)
                    == steps_in_sources(
                    world,
                    from,
                    *pattern,
                    bindings@,
                    forward,
                    source as int,
                    found@,
                ),
            decreases count + 1 - source,
        {
            let graph = self.graph_of(source as u32);
            let ghost here = found@;
            let ghost edges = world.graph(source as int).edges;
            let mut at: usize = 0;
            while at < graph.edges.len()
                invariant
                    at <= graph.edges@.len(),
                    world == self@,
                    world.linked.len() == count,
                    count < u32::MAX,
                    source <= count,
                    first == old(found)@,
                    edges == world.graph(source as int).edges,
                    edges == views(graph.edges@),
                    steps_in_sources(world, from, *pattern, bindings@, forward, 0, first)
                        == steps_in_sources(
                        world,
                        from,
                        *pattern,
                        bindings@,
                        forward,
                        source as int,
                        here,
                    ),
                    steps_in_source(
                        world,
                        from,
                        *pattern,
                        bindings@,
                        forward,
                        source as int,
                        0,
                        here,
                    ) == steps_in_source(
                        world,
                        from,
                        *pattern,
                        bindings@,
                        forward,
                        source as int,
                        at as int,
                        found@,
                    ),
                decreases graph.edges@.len() - at,
            {
                assert(edges[at as int] == graph.edges@[at as int]@);
                match self.step(
                    from,
                    pattern,
                    bindings,
                    forward,
                    source as u32,
                    &graph.edges[at],
                ) {
                    Err(error) => {
                        return Err(error);
                    }
                    Ok(Some(step)) => {
                        found.push(step);
                    }
                    Ok(None) => {}
                }
                at = at + 1;
            }
            source = source + 1;
        }
        Ok(())
    }

    /// Every edge leaving `from` that the pattern admits, with the node it reaches.
    fn edges_from(&self, from: ScopedNode, pattern: &RelationshipPattern, bindings: &Bindings) -> (made:
        Result<Vec<(ScopedEdge, ScopedNode)>, QueryError>)
        requires
            self@.linked.len() < u32::MAX,
        ensures
            match made {
                Ok(found) => steps_from(self@, from, *pattern, bindings@) matches Ok(model) && model
                    == found@,
                Err(error) => steps_from(self@, from, *pattern, bindings@) matches Err(wrong)
                    && wrong == error@,
            },
    {
        let mut found: Vec<(ScopedEdge, ScopedNode)> = Vec::new();
        if pattern.direction != Direction::Incoming {
            match self.scan(from, pattern, bindings, true, &mut found) {
                Err(error) => {
                    return Err(error);
                }
                Ok(_) => {}
            }
        }
        if pattern.direction != Direction::Outgoing {
            match self.scan(from, pattern, bindings, false, &mut found) {
                Err(error) => {
                    return Err(error);
                }
                Ok(_) => {}
            }
        }
        Ok(found)
    }
}

// -- Walks -------------------------------------------------------------------------

/// A walk so far.
pub struct Walk {
    /// The edges along it.
    pub edges: Seq<ScopedEdge>,
    /// Where it stands.
    pub current: ScopedNode,
    /// The nodes it has been at.
    pub visited: Seq<ScopedNode>,
}

/// What a walk reaches: the edges along it, and the node at its end.
pub type Reached = (Seq<ScopedEdge>, ScopedNode);

/// Taking the steps from `at` on, after a walk. A walk never comes back to a node.
pub open spec fn walk_on(
    walk: Walk,
    steps: Seq<(ScopedEdge, ScopedNode)>,
    at: int,
    counts: bool,
    found: Seq<Reached>,
    next: Seq<Walk>,
) -> (Seq<Reached>, Seq<Walk>)
    decreases steps.len() - at,
{
    if at < 0 || at >= steps.len() {
        (found, next)
    } else if walk.visited.contains(steps[at].1) {
        walk_on(walk, steps, at + 1, counts, found, next)
    } else {
        let edges = walk.edges.push(steps[at].0);
        let longer = Walk {
            edges,
            current: steps[at].1,
            visited: walk.visited.push(steps[at].1),
        };
        walk_on(
            walk,
            steps,
            at + 1,
            counts,
            if counts {
                found.push((edges, steps[at].1))
            } else {
                found
            },
            next.push(longer),
        )
    }
}

/// Taking one more step after each of the walks from `at` on.
pub open spec fn walks_on(
    world: World,
    pattern: RelationshipPattern,
    scope: Scope,
    walks: Seq<Walk>,
    at: int,
    counts: bool,
    found: Seq<Reached>,
    next: Seq<Walk>,
) -> Result<(Seq<Reached>, Seq<Walk>), QueryErrorModel>
    decreases walks.len() - at,
{
    if at < 0 || at >= walks.len() {
        Ok((found, next))
    } else {
        match steps_from(world, walks[at].current, pattern, scope) {
            Err(wrong) => Err(wrong),
            Ok(steps) => {
                let (more, further) = walk_on(walks[at], steps, 0, counts, found, next);
                walks_on(world, pattern, scope, walks, at + 1, counts, more, further)
            },
        }
    }
}

/// What walks reach whose length lies within the range, from `depth` on.
pub open spec fn walked(
    world: World,
    pattern: RelationshipPattern,
    scope: Scope,
    range: LengthRange,
    depth: int,
    walks: Seq<Walk>,
    found: Seq<Reached>,
) -> Result<Seq<Reached>, QueryErrorModel>
    decreases range.maximum + 1 - depth,
{
    if depth > range.maximum || walks.len() == 0 {
        Ok(found)
    } else {
        match walks_on(
            world,
            pattern,
            scope,
            walks,
            0,
            depth >= range.minimum,
            found,
            Seq::empty(),
        ) {
            Err(wrong) => Err(wrong),
            Ok((more, next)) => walked(world, pattern, scope, range, depth + 1, next, more),
        }
    }
}

/// A walk that has not begun.
pub open spec fn standing(from: ScopedNode) -> Walk {
    Walk { edges: Seq::empty(), current: from, visited: seq![from] }
}

/// What one step of a pattern reaches from a node.
pub open spec fn reached_from(
    world: World,
    from: ScopedNode,
    pattern: RelationshipPattern,
    scope: Scope,
) -> Result<Seq<Reached>, QueryErrorModel> {
    match pattern.length {
        None => match steps_from(world, from, pattern, scope) {
            Err(wrong) => Err(wrong),
            Ok(steps) => Ok(
                Seq::new(steps.len(), |i: int| (seq![steps[i].0], steps[i].1)),
            ),
        },
        Some(range) => walked(world, pattern, scope, range, 1, seq![standing(from)], Seq::empty()),
    }
}

/// A walk so far.
struct Walking {
    edges: Vec<ScopedEdge>,
    current: ScopedNode,
    visited: Vec<ScopedNode>,
}

impl View for Walking {
    type V = Walk;

    closed spec fn view(&self) -> Walk {
        Walk { edges: self.edges@, current: self.current, visited: self.visited@ }
    }
}

/// What a walk reaches.
pub(crate) struct Reach {
    pub(crate) edges: Vec<ScopedEdge>,
    pub(crate) node: ScopedNode,
}

impl View for Reach {
    type V = Reached;

    open(crate) spec fn view(&self) -> Reached {
        (self.edges@, self.node)
    }
}

fn was_at(visited: &Vec<ScopedNode>, node: ScopedNode) -> (answer: bool)
    ensures
        answer == visited@.contains(node),
{
    let mut at: usize = 0;
    while at < visited.len()
        invariant
            at <= visited@.len(),
            forall|i: int| 0 <= i < at ==> #[trigger] visited@[i] != node,
        decreases visited@.len() - at,
    {
        if visited[at].same(&node) {
            return true;
        }
        at = at + 1;
    }
    false
}

fn take_steps(
    walk: &Walking,
    steps: &Vec<(ScopedEdge, ScopedNode)>,
    counts: bool,
    found: &mut Vec<Reach>,
    next: &mut Vec<Walking>,
)
    ensures
        walk_on(walk@, steps@, 0, counts, views(old(found)@), views(old(next)@)) == (
            views(final(found)@),
            views(final(next)@),
        ),
{
    let ghost model = walk@;
    let ghost first = (views(found@), views(next@));
    let mut at: usize = 0;
    while at < steps.len()
        invariant
            at <= steps@.len(),
            model == walk@,
            first == (views(old(found)@), views(old(next)@)),
            walk_on(model, steps@, 0, counts, first.0, first.1) == walk_on(
                model,
                steps@,
                at as int,
                counts,
                views(found@),
                views(next@),
            ),
        decreases steps@.len() - at,
    {
        let (edge, other) = steps[at];
        if !was_at(&walk.visited, other) {
            let mut edges = copy_handles(&walk.edges);
            edges.push(edge);
            let mut visited = copy_handles(&walk.visited);
            visited.push(other);
            if counts {
                let reach = Reach { edges: copy_handles(&edges), node: other };
                proof {
                    views_push(found@, reach);
                }
                found.push(reach);
            }
            let longer = Walking { edges, current: other, visited };
            proof {
                views_push(next@, longer);
            }
            next.push(longer);
        }
        at = at + 1;
    }
}

impl<'a> Executor<'a> {
    fn walk(
        &self,
        from: ScopedNode,
        pattern: &RelationshipPattern,
        range: LengthRange,
        bindings: &Bindings,
    ) -> (made: Result<Vec<Reach>, QueryError>)
        requires
            self@.linked.len() < u32::MAX,
        ensures
            match made {
                Ok(found) => walked(
                    self@,
                    *pattern,
                    bindings@,
                    range,
                    1,
                    seq![standing(from)],
                    Seq::empty(),
                ) matches Ok(model) && model == views(found@),
                Err(error) => walked(
                    self@,
                    *pattern,
                    bindings@,
                    range,
                    1,
                    seq![standing(from)],
                    Seq::empty(),
                ) matches Err(wrong) && wrong == error@,
            },
    {
        let ghost world = self@;
        let ghost start = seq![standing(from)];
        let mut found: Vec<Reach> = Vec::new();
        let mut first: Vec<ScopedNode> = Vec::new();
        first.push(from);
        let mut walks: Vec<Walking> = Vec::new();
        let begin = Walking { edges: Vec::new(), current: from, visited: first };
        assert(begin@.visited =~= standing(from).visited);
        assert(begin@.edges =~= standing(from).edges);
        walks.push(begin);
        assert(views(walks@) =~= start);
        assert(views(found@) =~= Seq::<Reached>::empty());
        let mut depth: u64 = 1;
        while depth <= range.maximum as u64 && walks.len() > 0
            invariant
                1 <= depth <= range.maximum + 1,
                start == seq![standing(from)],
                world == self@,
                world.linked.len() < u32::MAX,
                walked(world, *pattern, bindings@, range, 1, start, Seq::empty()) == walked(
                    world,
                    *pattern,
                    bindings@,
                    range,
                    depth as int,
                    views(walks@),
                    views(found@),
                ),
            decreases range.maximum + 1 - depth,
        {
            let counts = depth >= range.minimum as u64;
            let ghost here = views(walks@);
            let ghost before = views(found@);
            let mut next: Vec<Walking> = Vec::new();
            assert(views(next@) =~= Seq::<Walk>::empty());
            let mut at: usize = 0;
            while at < walks.len()
                invariant
                    at <= walks@.len(),
                    1 <= depth <= range.maximum,
                    start == seq![standing(from)],
                    counts == (depth >= range.minimum),
                    world == self@,
                    world.linked.len() < u32::MAX,
                    here == views(walks@),
                    here.len() > 0,
                    walked(world, *pattern, bindings@, range, 1, start, Seq::empty()) == walked(
                        world,
                        *pattern,
                        bindings@,
                        range,
                        depth as int,
                        here,
                        before,
                    ),
                    walks_on(
                        world,
                        *pattern,
                        bindings@,
                        here,
                        0,
                        counts,
                        before,
                        Seq::empty(),
                    ) == walks_on(
                        world,
                        *pattern,
                        bindings@,
                        here,
                        at as int,
                        counts,
                        views(found@),
                        views(next@),
                    ),
                decreases walks@.len() - at,
            {
                assert(here[at as int] == walks@[at as int]@);
                let steps = match self.edges_from(walks[at].current, pattern, bindings) {
                    Err(error) => return Err(error),
                    Ok(steps) => steps,
                };
                take_steps(&walks[at], &steps, counts, &mut found, &mut next);
                at = at + 1;
            }
            walks = next;
            depth = depth + 1;
        }
        Ok(found)
    }

    fn reach(&self, from: ScopedNode, pattern: &RelationshipPattern, bindings: &Bindings) -> (made:
        Result<Vec<Reach>, QueryError>)
        requires
            self@.linked.len() < u32::MAX,
        ensures
            match made {
                Ok(found) => reached_from(self@, from, *pattern, bindings@) matches Ok(model)
                    && model == views(found@),
                Err(error) => reached_from(self@, from, *pattern, bindings@) matches Err(wrong)
                    && wrong == error@,
            },
    {
        match pattern.length {
            Some(range) => self.walk(from, pattern, range, bindings),
            None => {
                let steps = match self.edges_from(from, pattern, bindings) {
                    Err(error) => return Err(error),
                    Ok(steps) => steps,
                };
                let ghost all = Seq::new(
                    steps@.len(),
                    |i: int| (seq![steps@[i].0], steps@[i].1),
                );
                let mut found: Vec<Reach> = Vec::new();
                let mut at: usize = 0;
                while at < steps.len()
                    invariant
                        at <= steps@.len(),
                        all == Seq::new(
                            steps@.len(),
                            |i: int| (seq![steps@[i].0], steps@[i].1),
                        ),
                        views(found@) =~= all.take(at as int),
                    decreases steps@.len() - at,
                {
                    let mut edges: Vec<ScopedEdge> = Vec::new();
                    edges.push(steps[at].0);
                    let reach = Reach { edges, node: steps[at].1 };
                    assert(reach@.0 =~= seq![steps@[at as int].0]);
                    proof {
                        views_push(found@, reach);
                    }
                    found.push(reach);
                    at = at + 1;
                }
                assert(all.take(all.len() as int) =~= all);
                Ok(found)
            }
        }
    }
}

// -- Candidates --------------------------------------------------------------------

/// The nodes of one source that a match starts at, of the first `count` of them in order of
/// their identifiers: of records that share one, the last counts.
pub open spec fn candidates_in(nodes: Seq<NodeModel>, source: int, count: int) -> Seq<
    (ScopedNode, NodeModel),
>
    decreases count,
{
    if count <= 0 {
        Seq::empty()
    } else {
        let before = candidates_in(nodes, source, count - 1);
        let node = nodes[count - 1];
        if count < nodes.len() && nodes[count].id == node.id {
            before
        } else {
            before.push((Scoped { source: source as u32, id: node.id }, node))
        }
    }
}

/// The nodes of the first `count` sources that a match starts at.
pub open spec fn candidates_of(world: World, count: int) -> Seq<(ScopedNode, NodeModel)>
    decreases count,
{
    if count <= 0 {
        Seq::empty()
    } else {
        let nodes = sorted::<Node>(world.graph(count - 1).nodes);
        candidates_of(world, count - 1) + candidates_in(nodes, count - 1, nodes.len() as int)
    }
}

/// The models of candidates.
spec fn candidate_models(found: Seq<(ScopedNode, &Node)>) -> Seq<(ScopedNode, NodeModel)> {
    Seq::new(found.len(), |i: int| (found[i].0, found[i].1@))
}

impl<'a> Executor<'a> {
    fn candidates(&self) -> (found: Vec<(ScopedNode, &'a Node)>)
        requires
            self@.linked.len() < u32::MAX,
        ensures
            candidate_models(found@) == candidates_of(self@, self@.linked.len() as int + 1),
    {
        let ghost world = self@;
        let count: usize = self.linked.len();
        let mut found: Vec<(ScopedNode, &'a Node)> = Vec::new();
        assert(candidate_models(found@) =~= Seq::<(ScopedNode, NodeModel)>::empty());
        let mut source: usize = 0;
        while source <= count
            invariant
                world == self@,
                count == self.linked@.len(),
                world.linked.len() == count,
                count < u32::MAX,
                source <= count + 1,
                candidate_models(found@) == candidates_of(world, source as int),
            decreases count + 1 - source,
        {
            let graph = self.graph_of(source as u32);
            let nodes = in_sequence(&graph.nodes);
            let ghost models = sorted::<Node>(world.graph(source as int).nodes);
            let ghost before = candidate_models(found@);
            let mut at: usize = 0;
            assert(before + candidates_in(models, source as int, 0) =~= before);
            while at < nodes.len()
                invariant
                    at <= nodes@.len(),
                    source <= count < u32::MAX,
                    models == shown(nodes@),
                    candidate_models(found@) == before + candidates_in(
                        models,
                        source as int,
                        at as int,
                    ),
                decreases nodes@.len() - at,
            {
                assert(models[at as int] == nodes@[at as int]@);
                let node = nodes[at];
                let mut repeated = false;
                if at + 1 < nodes.len() {
                    assert(models[at + 1] == nodes@[at + 1]@);
                    if nodes[at + 1].id.same(&node.id) {
                        proof {
                            LocalNodeId::same_bytes(nodes@[at + 1].id, node.id);
                        }
                        repeated = true;
                    }
                }
                if !repeated {
                    let ghost earlier = found@;
                    found.push((Scoped { source: source as u32, id: node.id }, node));
                    assert(candidate_models(found@) =~= candidate_models(earlier).push(
                        (Scoped { source: source as u32, id: node.id }, node@),
                    ));
                }
                at = at + 1;
                assert(candidate_models(found@) =~= before + candidates_in(
                    models,
                    source as int,
                    at as int,
                ));
            }
            source = source + 1;
        }
        found
    }
}

// -- Patterns ----------------------------------------------------------------------

/// A match so far.
pub struct Partial {
    /// What is bound.
    pub scope: Scope,
    /// Where it stands.
    pub current: ScopedNode,
    /// The nodes along it.
    pub nodes: Seq<ScopedNode>,
    /// The edges along it.
    pub edges: Seq<ScopedEdge>,
}

/// A scope with a node bound to a variable, or `None` where the variable already names
/// something else.
pub open spec fn bound_node(scope: Scope, variable: Option<String>, handle: ScopedNode) -> Option<
    Scope,
> {
    match variable {
        None => Some(scope),
        Some(name) => match found_in(scope, name@) {
            Some(existing) => if existing == QueryModel::Node(handle) {
                Some(scope)
            } else {
                None
            },
            None => Some(scope.insert(name@, QueryModel::Node(handle))),
        },
    }
}

/// The matches that start at the candidates from `at` on, behind those before them.
pub open spec fn starts_from(
    world: World,
    pattern: NodePattern,
    base: Scope,
    candidates: Seq<(ScopedNode, NodeModel)>,
    at: int,
    before: Seq<Partial>,
) -> Result<Seq<Partial>, QueryErrorModel>
    decreases candidates.len() - at,
{
    if at < 0 || at >= candidates.len() {
        Ok(before)
    } else {
        let (handle, node) = candidates[at];
        match node_matches(world, node, pattern, base) {
            Err(wrong) => Err(wrong),
            Ok(matches) => {
                let next = if matches {
                    match bound_node(base, pattern.variable, handle) {
                        Some(scope) => before.push(
                            Partial {
                                scope,
                                current: handle,
                                nodes: seq![handle],
                                edges: Seq::empty(),
                            },
                        ),
                        None => before,
                    }
                } else {
                    before
                };
                starts_from(world, pattern, base, candidates, at + 1, next)
            },
        }
    }
}

/// The value a relationship variable is bound to: a relationship, or a list of them where
/// the pattern has a length.
pub open spec fn relationship_value(pattern: RelationshipPattern, edges: Seq<ScopedEdge>) -> QueryModel {
    if edges.len() == 1 && pattern.length is None {
        QueryModel::Relationship(edges[0])
    } else {
        QueryModel::List(Seq::new(edges.len(), |i: int| QueryModel::Relationship(edges[i])))
    }
}

/// A match that goes on to what was reached, where that is what the pattern describes.
pub open spec fn extended_to(
    world: World,
    partial: Partial,
    relationship: RelationshipPattern,
    pattern: NodePattern,
    reach: Reached,
) -> Result<Option<Partial>, QueryErrorModel> {
    match node_of_handle(world, reach.1) {
        None => Ok(None),
        Some(node) => match node_matches(world, node, pattern, partial.scope) {
            Err(wrong) => Err(wrong),
            Ok(matches) => if !matches {
                Ok(None)
            } else {
                match bound_node(partial.scope, pattern.variable, reach.1) {
                    None => Ok(None),
                    Some(scope) => Ok(
                        Some(
                            Partial {
                                scope: match relationship.variable {
                                    Some(name) => scope.insert(
                                        name@,
                                        relationship_value(relationship, reach.0),
                                    ),
                                    None => scope,
                                },
                                current: reach.1,
                                nodes: partial.nodes.push(reach.1),
                                edges: partial.edges + reach.0,
                            },
                        ),
                    ),
                }
            },
        },
    }
}

/// The matches that go on to what was reached, from `at` on, behind those before them.
pub open spec fn extended_to_all(
    world: World,
    partial: Partial,
    relationship: RelationshipPattern,
    pattern: NodePattern,
    reaches: Seq<Reached>,
    at: int,
    before: Seq<Partial>,
) -> Result<Seq<Partial>, QueryErrorModel>
    decreases reaches.len() - at,
{
    if at < 0 || at >= reaches.len() {
        Ok(before)
    } else {
        match extended_to(world, partial, relationship, pattern, reaches[at]) {
            Err(wrong) => Err(wrong),
            Ok(None) => extended_to_all(
                world,
                partial,
                relationship,
                pattern,
                reaches,
                at + 1,
                before,
            ),
            Ok(Some(next)) => extended_to_all(
                world,
                partial,
                relationship,
                pattern,
                reaches,
                at + 1,
                before.push(next),
            ),
        }
    }
}

/// The matches from `at` on, one step further, behind those before them.
pub open spec fn extended_all(
    world: World,
    partials: Seq<Partial>,
    at: int,
    relationship: RelationshipPattern,
    pattern: NodePattern,
    before: Seq<Partial>,
) -> Result<Seq<Partial>, QueryErrorModel>
    decreases partials.len() - at,
{
    if at < 0 || at >= partials.len() {
        Ok(before)
    } else {
        match reached_from(world, partials[at].current, relationship, partials[at].scope) {
            Err(wrong) => Err(wrong),
            Ok(reaches) => match extended_to_all(
                world,
                partials[at],
                relationship,
                pattern,
                reaches,
                0,
                before,
            ) {
                Err(wrong) => Err(wrong),
                Ok(next) => extended_all(world, partials, at + 1, relationship, pattern, next),
            },
        }
    }
}

/// The matches after the steps from `at` on.
pub open spec fn through_steps(
    world: World,
    steps: Seq<(RelationshipPattern, NodePattern)>,
    at: int,
    partials: Seq<Partial>,
) -> Result<Seq<Partial>, QueryErrorModel>
    decreases steps.len() - at,
{
    if at < 0 || at >= steps.len() {
        Ok(partials)
    } else {
        match extended_all(world, partials, 0, steps[at].0, steps[at].1, Seq::empty()) {
            Err(wrong) => Err(wrong),
            Ok(next) => through_steps(world, steps, at + 1, next),
        }
    }
}

/// What a finished match has bound.
pub open spec fn finished(partial: Partial, variable: Option<String>) -> Scope {
    match variable {
        Some(name) => partial.scope.insert(
            name@,
            QueryModel::Path { nodes: partial.nodes, relationships: partial.edges },
        ),
        None => partial.scope,
    }
}

/// Every way a pattern can be satisfied, on top of what is bound already.
#[verifier::opaque]
pub open spec fn matched(world: World, pattern: Pattern, base: Scope) -> Result<
    Seq<Scope>,
    QueryErrorModel,
> {
    match starts_from(
        world,
        pattern.start,
        base,
        candidates_of(world, world.linked.len() as int + 1),
        0,
        Seq::empty(),
    ) {
        Err(wrong) => Err(wrong),
        Ok(started) => match through_steps(world, pattern.steps@, 0, started) {
            Err(wrong) => Err(wrong),
            Ok(partials) => Ok(
                Seq::new(
                    partials.len(),
                    |i: int| finished(partials[i], pattern.path_variable),
                ),
            ),
        },
    }
}

/// A match so far.
struct PartialMatch {
    scope: Bindings,
    current: ScopedNode,
    nodes: Vec<ScopedNode>,
    edges: Vec<ScopedEdge>,
}

impl View for PartialMatch {
    type V = Partial;

    closed spec fn view(&self) -> Partial {
        Partial {
            scope: self.scope@,
            current: self.current,
            nodes: self.nodes@,
            edges: self.edges@,
        }
    }
}

fn bind_node(scope: &Bindings, variable: &Option<String>, handle: ScopedNode) -> (made: Option<
    Bindings,
>)
    ensures
        match made {
            Some(found) => bound_node(scope@, *variable, handle) == Some(found@),
            None => bound_node(scope@, *variable, handle) is None,
        },
{
    match variable {
        None => Some(scope.clone()),
        Some(name) => match scope.get(name.as_str()) {
            Some(existing) => match existing {
                QueryValue::Node(other) => {
                    if other.same(&handle) {
                        Some(scope.clone())
                    } else {
                        None
                    }
                }
                _ => None,
            },
            None => {
                let mut next = scope.clone();
                next.insert(name.clone(), QueryValue::Node(handle));
                Some(next)
            }
        },
    }
}

fn relationship_binding(pattern: &RelationshipPattern, edges: &Vec<ScopedEdge>) -> (value: QueryValue)
    ensures
        value@ == relationship_value(*pattern, edges@),
{
    if edges.len() == 1 && pattern.length.is_none() {
        return QueryValue::Relationship(edges[0]);
    }
    let ghost all = Seq::new(edges@.len(), |i: int| QueryModel::Relationship(edges@[i]));
    let mut list: Vec<QueryValue> = Vec::new();
    let mut at: usize = 0;
    while at < edges.len()
        invariant
            at <= edges@.len(),
            all == Seq::new(edges@.len(), |i: int| QueryModel::Relationship(edges@[i])),
            views(list@) =~= all.take(at as int),
        decreases edges@.len() - at,
    {
        let item = QueryValue::Relationship(edges[at]);
        proof {
            views_push(list@, item);
        }
        list.push(item);
        at = at + 1;
    }
    assert(all.take(all.len() as int) =~= all);
    list_value(list)
}

impl<'a> Executor<'a> {
    fn start_matches(&self, pattern: &NodePattern, base: &Bindings) -> (made: Result<
        Vec<PartialMatch>,
        QueryError,
    >)
        requires
            self@.linked.len() < u32::MAX,
        ensures
            match made {
                Ok(found) => starts_from(
                    self@,
                    *pattern,
                    base@,
                    candidates_of(self@, self@.linked.len() as int + 1),
                    0,
                    Seq::empty(),
                ) matches Ok(model) && model == views(found@),
                Err(error) => starts_from(
                    self@,
                    *pattern,
                    base@,
                    candidates_of(self@, self@.linked.len() as int + 1),
                    0,
                    Seq::empty(),
                ) matches Err(wrong) && wrong == error@,
            },
    {
        let ghost world = self@;
        let candidates = self.candidates();
        let ghost models = candidate_models(candidates@);
        let mut found: Vec<PartialMatch> = Vec::new();
        assert(views(found@) =~= Seq::<Partial>::empty());
        let mut at: usize = 0;
        while at < candidates.len()
            invariant
                at <= candidates@.len(),
                world == self@,
                models == candidate_models(candidates@),
                models == candidates_of(world, world.linked.len() as int + 1),
                starts_from(world, *pattern, base@, models, 0, Seq::empty()) == starts_from(
                    world,
                    *pattern,
                    base@,
                    models,
                    at as int,
                    views(found@),
                ),
            decreases candidates@.len() - at,
        {
            let (handle, node) = candidates[at];
            assert(models[at as int] == (handle, node@));
            match self.node_matches(node, pattern, base) {
                Err(error) => {
                    return Err(error);
                }
                Ok(matches) => {
                    if matches {
                        match bind_node(base, &pattern.variable, handle) {
                            Some(scope) => {
                                let mut nodes: Vec<ScopedNode> = Vec::new();
                                nodes.push(handle);
                                let partial = PartialMatch {
                                    scope,
                                    current: handle,
                                    nodes,
                                    edges: Vec::new(),
                                };
                                assert(partial@.nodes =~= seq![handle]);
                                assert(partial@.edges =~= Seq::<ScopedEdge>::empty());
                                proof {
                                    views_push(found@, partial);
                                }
                                found.push(partial);
                            }
                            None => {}
                        }
                    }
                }
            }
            at = at + 1;
        }
        Ok(found)
    }

    fn extend(
        &self,
        partial: &PartialMatch,
        relationship: &RelationshipPattern,
        pattern: &NodePattern,
        reach: &Reach,
    ) -> (made: Result<Option<PartialMatch>, QueryError>)
        ensures
            match made {
                Ok(found) => extended_to(
                    self@,
                    partial@,
                    *relationship,
                    *pattern,
                    reach@,
                ) matches Ok(model) && model == crate::text::view_of(found),
                Err(error) => extended_to(
                    self@,
                    partial@,
                    *relationship,
                    *pattern,
                    reach@,
                ) matches Err(wrong) && wrong == error@,
            },
    {
        let node = match self.node(reach.node) {
            None => return Ok(None),
            Some(found) => found,
        };
        match self.node_matches(node, pattern, &partial.scope) {
            Err(error) => {
                return Err(error);
            }
            Ok(matches) => {
                if !matches {
                    return Ok(None);
                }
            }
        }
        let mut scope = match bind_node(&partial.scope, &pattern.variable, reach.node) {
            None => return Ok(None),
            Some(found) => found,
        };
        match &relationship.variable {
            Some(name) => {
                scope.insert(name.clone(), relationship_binding(relationship, &reach.edges));
            }
            None => {}
        }
        let mut nodes = copy_handles(&partial.nodes);
        nodes.push(reach.node);
        let mut edges = copy_handles(&partial.edges);
        let mut more = copy_handles(&reach.edges);
        edges.append(&mut more);
        Ok(Some(PartialMatch { scope, current: reach.node, nodes, edges }))
    }

    fn extend_all(
        &self,
        partials: &Vec<PartialMatch>,
        relationship: &RelationshipPattern,
        pattern: &NodePattern,
    ) -> (made: Result<Vec<PartialMatch>, QueryError>)
        requires
            self@.linked.len() < u32::MAX,
        ensures
            match made {
                Ok(found) => extended_all(
                    self@,
                    views(partials@),
                    0,
                    *relationship,
                    *pattern,
                    Seq::empty(),
                ) matches Ok(model) && model == views(found@),
                Err(error) => extended_all(
                    self@,
                    views(partials@),
                    0,
                    *relationship,
                    *pattern,
                    Seq::empty(),
                ) matches Err(wrong) && wrong == error@,
            },
    {
        let ghost world = self@;
        let ghost models = views(partials@);
        let ghost goal = extended_all(
            world,
            models,
            0,
            *relationship,
            *pattern,
            Seq::empty(),
        );
        let mut found: Vec<PartialMatch> = Vec::new();
        assert(views(found@) =~= Seq::<Partial>::empty());
        let mut at: usize = 0;
        while at < partials.len()
            invariant
                at <= partials@.len(),
                world == self@,
                world.linked.len() < u32::MAX,
                models == views(partials@),
                goal == extended_all(
                    world,
                    models,
                    0,
                    *relationship,
                    *pattern,
                    Seq::empty(),
                ),
                goal == extended_all(
                    world,
                    models,
                    at as int,
                    *relationship,
                    *pattern,
                    views(found@),
                ),
            decreases partials@.len() - at,
        {
            let partial = &partials[at];
            assert(models[at as int] == partial@);
            let reaches = match self.reach(partial.current, relationship, &partial.scope) {
                Err(error) => return Err(error),
                Ok(reaches) => reaches,
            };
            let ghost reach_models = views(reaches@);
            let ghost before = views(found@);
            let mut place: usize = 0;
            while place < reaches.len()
                invariant
                    place <= reaches@.len(),
                    world == self@,
                    at < models.len(),
                    partial@ == models[at as int],
                    reach_models == views(reaches@),
                    reached_from(world, partial@.current, *relationship, partial@.scope)
                        matches Ok(all) && all == reach_models,
                    goal == extended_all(
                        world,
                        models,
                        0,
                        *relationship,
                        *pattern,
                        Seq::empty(),
                    ),
                    goal == extended_all(
                        world,
                        models,
                        at as int,
                        *relationship,
                        *pattern,
                        before,
                    ),
                    models == views(partials@),
                    extended_to_all(
                        world,
                        partial@,
                        *relationship,
                        *pattern,
                        reach_models,
                        0,
                        before,
                    ) == extended_to_all(
                        world,
                        partial@,
                        *relationship,
                        *pattern,
                        reach_models,
                        place as int,
                        views(found@),
                    ),
                decreases reaches@.len() - place,
            {
                assert(reach_models[place as int] == reaches@[place as int]@);
                match self.extend(partial, relationship, pattern, &reaches[place]) {
                    Err(error) => {
                        return Err(error);
                    }
                    Ok(Some(next)) => {
                        proof {
                            views_push(found@, next);
                        }
                        found.push(next);
                    }
                    Ok(None) => {}
                }
                place = place + 1;
            }
            at = at + 1;
        }
        Ok(found)
    }

    /// Enumerates every way a pattern can be satisfied, extending `base`.
    pub(crate) fn match_pattern(&self, pattern: &Pattern, base: &Bindings) -> (made: Result<
        Vec<Bindings>,
        QueryError,
    >)
        requires
            self@.linked.len() < u32::MAX,
        ensures
            match made {
                Ok(found) => matched(self@, *pattern, base@) matches Ok(model) && model == views(
                    found@,
                ),
                Err(error) => matched(self@, *pattern, base@) matches Err(wrong) && wrong
                    == error@,
            },
    {
        proof {
            reveal(matched);
        }
        let ghost world = self@;
        let mut partials = match self.start_matches(&pattern.start, base) {
            Err(error) => return Err(error),
            Ok(found) => found,
        };
        let ghost started = views(partials@);
        let mut at: usize = 0;
        while at < pattern.steps.len()
            invariant
                at <= pattern.steps@.len(),
                world == self@,
                world.linked.len() < u32::MAX,
                starts_from(
                    world,
                    pattern.start,
                    base@,
                    candidates_of(world, world.linked.len() as int + 1),
                    0,
                    Seq::empty(),
                ) matches Ok(all) && all == started,
                through_steps(world, pattern.steps@, 0, started) == through_steps(
                    world,
                    pattern.steps@,
                    at as int,
                    views(partials@),
                ),
            decreases pattern.steps@.len() - at,
        {
            proof {
                reveal(matched);
            }
            let step = &pattern.steps[at];
            match self.extend_all(&partials, &step.0, &step.1) {
                Err(error) => {
                    return Err(error);
                }
                Ok(next) => {
                    partials = next;
                }
            }
            at = at + 1;
        }
        let ghost models = views(partials@);
        let ghost all = Seq::new(
            models.len(),
            |i: int| finished(models[i], pattern.path_variable),
        );
        let mut results: Vec<Bindings> = Vec::new();
        let mut at: usize = 0;
        while at < partials.len()
            invariant
                at <= partials@.len(),
                models == views(partials@),
                all == Seq::new(
                    models.len(),
                    |i: int| finished(models[i], pattern.path_variable),
                ),
                views(results@) =~= all.take(at as int),
            decreases partials@.len() - at,
        {
            let partial = &partials[at];
            assert(models[at as int] == partial@);
            let mut scope = partial.scope.clone();
            match &pattern.path_variable {
                Some(name) => {
                    scope.insert(
                        name.clone(),
                        QueryValue::Path {
                            nodes: copy_handles(&partial.nodes),
                            relationships: copy_handles(&partial.edges),
                        },
                    );
                }
                None => {}
            }
            proof {
                views_push(results@, scope);
            }
            results.push(scope);
            at = at + 1;
        }
        assert(all.take(all.len() as int) =~= all);
        Ok(results)
    }
}

// -- Laws --------------------------------------------------------------------------

/// Whether the pattern admits an edge from one node to another.
pub open spec fn admits(
    world: World,
    pattern: RelationshipPattern,
    scope: Scope,
    from: ScopedNode,
    edge: ScopedEdge,
    to: ScopedNode,
) -> bool {
    steps_from(world, from, pattern, scope) matches Ok(steps) && steps.contains((edge, to))
}

/// Whether a walk goes over edges that the pattern admits, each from one of the nodes to the
/// next, and is at no node more than once.
pub open spec fn is_route(
    world: World,
    pattern: RelationshipPattern,
    scope: Scope,
    nodes: Seq<ScopedNode>,
    edges: Seq<ScopedEdge>,
) -> bool {
    &&& nodes.len() == edges.len() + 1
    &&& nodes.no_duplicates()
    &&& forall|i: int|
        0 <= i < edges.len() ==> admits(
            world,
            pattern,
            scope,
            nodes[i],
            #[trigger] edges[i],
            nodes[i + 1],
        )
}

/// Whether something reached lies at the end of such a walk from a node, which has at least
/// `least` edges and at most `most`.
pub open spec fn ends_a_route(
    world: World,
    from: ScopedNode,
    pattern: RelationshipPattern,
    scope: Scope,
    least: int,
    most: int,
    reached: Reached,
) -> bool {
    &&& least <= reached.0.len() <= most
    &&& exists|nodes: Seq<ScopedNode>|
        #[trigger] is_route(world, pattern, scope, nodes, reached.0) && nodes[0] == from
            && nodes.last() == reached.1
}

/// Whether a walk from a node has taken so many steps, and been nowhere twice.
spec fn under_way(
    world: World,
    from: ScopedNode,
    pattern: RelationshipPattern,
    scope: Scope,
    count: int,
    walk: Walk,
) -> bool {
    &&& is_route(world, pattern, scope, walk.visited, walk.edges)
    &&& walk.edges.len() == count
    &&& walk.visited[0] == from
    &&& walk.visited.last() == walk.current
}

spec fn all_under_way(
    world: World,
    from: ScopedNode,
    pattern: RelationshipPattern,
    scope: Scope,
    count: int,
    walks: Seq<Walk>,
) -> bool {
    forall|i: int|
        0 <= i < walks.len() ==> under_way(world, from, pattern, scope, count, #[trigger] walks[i])
}

spec fn all_end_routes(
    world: World,
    from: ScopedNode,
    pattern: RelationshipPattern,
    scope: Scope,
    least: int,
    most: int,
    found: Seq<Reached>,
) -> bool {
    forall|i: int|
        0 <= i < found.len() ==> ends_a_route(
            world,
            from,
            pattern,
            scope,
            least,
            most,
            #[trigger] found[i],
        )
}

proof fn one_step_further(
    world: World,
    from: ScopedNode,
    pattern: RelationshipPattern,
    scope: Scope,
    count: int,
    walk: Walk,
    step: (ScopedEdge, ScopedNode),
)
    requires
        under_way(world, from, pattern, scope, count, walk),
        steps_from(world, walk.current, pattern, scope) matches Ok(steps) && steps.contains(step),
        !walk.visited.contains(step.1),
    ensures
        under_way(
            world,
            from,
            pattern,
            scope,
            count + 1,
            (Walk {
                edges: walk.edges.push(step.0),
                current: step.1,
                visited: walk.visited.push(step.1),
            }),
        ),
{
    let edges = walk.edges.push(step.0);
    let nodes = walk.visited.push(step.1);
    assert(admits(world, pattern, scope, walk.current, step.0, step.1)) by {
        assert((step.0, step.1) == step);
    }
    assert forall|i: int| 0 <= i < edges.len() implies admits(
        world,
        pattern,
        scope,
        nodes[i],
        #[trigger] edges[i],
        nodes[i + 1],
    ) by {
        if i < walk.edges.len() {
            assert(edges[i] == walk.edges[i]);
            assert(nodes[i] == walk.visited[i] && nodes[i + 1] == walk.visited[i + 1]);
        } else {
            assert(nodes[i] == walk.current);
            assert(edges[i] == step.0 && nodes[i + 1] == step.1);
        }
    }
    assert forall|i: int, j: int|
        0 <= i < nodes.len() && 0 <= j < nodes.len() && i != j implies nodes[i] != nodes[j] by {
        if i < walk.visited.len() {
            assert(walk.visited.contains(walk.visited[i]));
        }
        if j < walk.visited.len() {
            assert(walk.visited.contains(walk.visited[j]));
        }
    }
    assert(nodes.no_duplicates());
    assert(is_route(world, pattern, scope, nodes, edges));
    assert(nodes[0] == walk.visited[0]);
}

proof fn walk_stays_a_route(
    world: World,
    from: ScopedNode,
    pattern: RelationshipPattern,
    scope: Scope,
    count: int,
    least: int,
    most: int,
    walk: Walk,
    at: int,
    found: Seq<Reached>,
    next: Seq<Walk>,
)
    requires
        under_way(world, from, pattern, scope, count, walk),
        steps_from(world, walk.current, pattern, scope) is Ok,
        count + 1 <= most,
        all_end_routes(world, from, pattern, scope, least, most, found),
        all_under_way(world, from, pattern, scope, count + 1, next),
        0 <= at,
    ensures
        ({
            let steps = steps_from(world, walk.current, pattern, scope)->Ok_0;
            let (more, further) = walk_on(walk, steps, at, count + 1 >= least, found, next);
            &&& all_end_routes(world, from, pattern, scope, least, most, more)
            &&& all_under_way(world, from, pattern, scope, count + 1, further)
        }),
    decreases steps_from(world, walk.current, pattern, scope)->Ok_0.len() - at,
{
    let steps = steps_from(world, walk.current, pattern, scope)->Ok_0;
    if at < steps.len() {
        let step = steps[at];
        if walk.visited.contains(step.1) {
            walk_stays_a_route(
                world,
                from,
                pattern,
                scope,
                count,
                least,
                most,
                walk,
                at + 1,
                found,
                next,
            );
        } else {
            let edges = walk.edges.push(step.0);
            let longer = Walk { edges, current: step.1, visited: walk.visited.push(step.1) };
            one_step_further(world, from, pattern, scope, count, walk, step);
            let more = if count + 1 >= least {
                found.push((edges, step.1))
            } else {
                found
            };
            assert forall|i: int| 0 <= i < more.len() implies ends_a_route(
                world,
                from,
                pattern,
                scope,
                least,
                most,
                #[trigger] more[i],
            ) by {
                if i < found.len() {
                    assert(more[i] == found[i]);
                } else {
                    assert(is_route(world, pattern, scope, longer.visited, more[i].0));
                }
            }
            let further = next.push(longer);
            assert forall|i: int| 0 <= i < further.len() implies under_way(
                world,
                from,
                pattern,
                scope,
                count + 1,
                #[trigger] further[i],
            ) by {
                if i < next.len() {
                    assert(further[i] == next[i]);
                }
            }
            walk_stays_a_route(
                world,
                from,
                pattern,
                scope,
                count,
                least,
                most,
                walk,
                at + 1,
                more,
                further,
            );
        }
    }
}

proof fn walks_stay_routes(
    world: World,
    from: ScopedNode,
    pattern: RelationshipPattern,
    scope: Scope,
    count: int,
    least: int,
    most: int,
    walks: Seq<Walk>,
    at: int,
    found: Seq<Reached>,
    next: Seq<Walk>,
)
    requires
        all_under_way(world, from, pattern, scope, count, walks),
        count + 1 <= most,
        all_end_routes(world, from, pattern, scope, least, most, found),
        all_under_way(world, from, pattern, scope, count + 1, next),
        0 <= at,
    ensures
        walks_on(world, pattern, scope, walks, at, count + 1 >= least, found, next) matches Ok(
            (more, further),
        ) ==> all_end_routes(world, from, pattern, scope, least, most, more) && all_under_way(
            world,
            from,
            pattern,
            scope,
            count + 1,
            further,
        ),
    decreases walks.len() - at,
{
    if at < walks.len() {
        if let Ok(steps) = steps_from(world, walks[at].current, pattern, scope) {
            walk_stays_a_route(
                world,
                from,
                pattern,
                scope,
                count,
                least,
                most,
                walks[at],
                0,
                found,
                next,
            );
            let (more, further) = walk_on(walks[at], steps, 0, count + 1 >= least, found, next);
            walks_stay_routes(
                world,
                from,
                pattern,
                scope,
                count,
                least,
                most,
                walks,
                at + 1,
                more,
                further,
            );
        }
    }
}

proof fn walked_ends_routes(
    world: World,
    from: ScopedNode,
    pattern: RelationshipPattern,
    scope: Scope,
    range: LengthRange,
    depth: int,
    walks: Seq<Walk>,
    found: Seq<Reached>,
)
    requires
        all_under_way(world, from, pattern, scope, depth - 1, walks),
        all_end_routes(
            world,
            from,
            pattern,
            scope,
            range.minimum as int,
            range.maximum as int,
            found,
        ),
    ensures
        walked(world, pattern, scope, range, depth, walks, found) matches Ok(all)
            ==> all_end_routes(
            world,
            from,
            pattern,
            scope,
            range.minimum as int,
            range.maximum as int,
            all,
        ),
    decreases range.maximum + 1 - depth,
{
    if depth <= range.maximum && walks.len() > 0 {
        let empty = Seq::<Walk>::empty();
        walks_stay_routes(
            world,
            from,
            pattern,
            scope,
            depth - 1,
            range.minimum as int,
            range.maximum as int,
            walks,
            0,
            found,
            empty,
        );
        if let Ok((more, next)) = walks_on(
            world,
            pattern,
            scope,
            walks,
            0,
            depth >= range.minimum,
            found,
            empty,
        ) {
            walked_ends_routes(world, from, pattern, scope, range, depth + 1, next, more);
        }
    }
}

/// A pattern of variable length is bounded and does not go round in circles: whatever it
/// reaches lies at the end of a walk over edges that the pattern admits, no shorter and no
/// longer than its range, that is at no node twice.
pub proof fn walks_never_come_back(
    world: World,
    from: ScopedNode,
    pattern: RelationshipPattern,
    scope: Scope,
)
    ensures
        pattern.length matches Some(range) ==> (reached_from(world, from, pattern, scope) matches Ok(
            found,
        ) ==> forall|i: int|
            0 <= i < found.len() ==> ends_a_route(
                world,
                from,
                pattern,
                scope,
                range.minimum as int,
                range.maximum as int,
                #[trigger] found[i],
            )),
{
    if let Some(range) = pattern.length {
        let walks = seq![standing(from)];
        assert(under_way(world, from, pattern, scope, 0, walks[0]));
        walked_ends_routes(world, from, pattern, scope, range, 1, walks, Seq::empty());
    }
}

} // verus!
