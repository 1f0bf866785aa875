//! Evaluating expressions against a graph and its linked sources.
//!
//! Reading never changes anything, so everything here is a function of the graphs, the
//! parameters and what a row has bound.

use crate::big::Relation;
use crate::bindings::found_in;
use crate::bindings::Bindings;
use crate::bindings::Parameters;
use crate::cypher::aggregate_name;
use crate::cypher::aggregates_in;
use crate::cypher::aggregates_of;
use crate::cypher::is_aggregate;
use crate::cypher::lower_text;
use crate::cypher::meaningless;
use crate::cypher::unbound;
use crate::cypher::BinaryOperator;
use crate::cypher::Expression;
use crate::cypher::QueryError;
use crate::cypher::QueryErrorModel;
use crate::decimal::lowered;
use crate::decimal::parse_double;
use crate::decimal::read_double;
use crate::evidence::SourceRange;
use crate::float::finite;
use crate::graph::pairs;
use crate::graph::Edge;
use crate::graph::EdgeModel;
use crate::graph::Graph;
use crate::graph::GraphModel;
use crate::graph::Node;
use crate::graph::NodeModel;
use crate::id::LocalEdgeId;
use crate::id::LocalNodeId;
use crate::locator::CanonicalSourceLocator;
use crate::name::PropertyKey;
use crate::nost::export::find_link;
use crate::procedure::function;
use crate::procedure::function_value;
use crate::procedure::optional_text_model;
use crate::procedure::ContextModel;
use crate::procedure::DatabaseContext;
use crate::property::FiniteF64;
use crate::property::PropertyModel;
use crate::property::PropertyValue;
use crate::text::characters;
use crate::text::joined;
use crate::text::same;
use crate::text::view_of;
use crate::text::views;
use crate::text::views_push;
use crate::value::compared;
use crate::value::copy_value;
use crate::value::equal;
use crate::value::list_model;
use crate::value::list_value;
use crate::value::of_property;
use crate::value::QueryModel;
use crate::value::QueryValue;
use crate::value::ScopedEdge;
use crate::value::ScopedNode;
use vstd::prelude::*;
use vstd::string::StrSliceExecFns;
use vstd::string::StringExecFns;

verus! {

// -- What a query reads ------------------------------------------------------------

/// A linked source a read may see beside the root.
#[derive(Clone, Copy, Debug)]
pub struct LinkedSource<'a> {
    /// The canonical locator, which is the source's identity.
    pub locator: &'a CanonicalSourceLocator,
    /// The records it holds.
    pub graph: &'a Graph,
}

impl<'a> View for LinkedSource<'a> {
    type V = (Seq<char>, GraphModel);

    open spec fn view(&self) -> (Seq<char>, GraphModel) {
        (self.locator@, self.graph@)
    }
}

/// Everything a read sees.
pub struct World {
    /// The root.
    pub root: GraphModel,
    /// The linked sources, each with its locator.
    pub linked: Seq<(Seq<char>, GraphModel)>,
    /// The parameters.
    pub parameters: Map<Seq<char>, QueryModel>,
    /// What is known about the database.
    pub context: ContextModel,
}

impl World {
    /// The records of a source. Index zero is the root.
    pub open spec fn graph(self, source: int) -> GraphModel {
        if source <= 0 || source > self.linked.len() {
            self.root
        } else {
            self.linked[source - 1].1
        }
    }

    /// The locator of a source. The root has none.
    pub open spec fn locator(self, source: int) -> Option<Seq<char>> {
        if source <= 0 || source > self.linked.len() {
            None
        } else {
            Some(self.linked[source - 1].0)
        }
    }
}

/// The last of the first `count` nodes with an identifier.
pub open spec fn last_node(nodes: Seq<NodeModel>, count: int, id: LocalNodeId) -> Option<int>
    decreases count,
{
    if count <= 0 {
        None
    } else if nodes[count - 1].id == id {
        Some(count - 1)
    } else {
        last_node(nodes, count - 1, id)
    }
}

/// The last of the first `count` edges with an identifier.
pub open spec fn last_edge(edges: Seq<EdgeModel>, count: int, id: LocalEdgeId) -> Option<int>
    decreases count,
{
    if count <= 0 {
        None
    } else if edges[count - 1].id == id {
        Some(count - 1)
    } else {
        last_edge(edges, count - 1, id)
    }
}

/// The node a handle is of.
pub open spec fn node_of_handle(world: World, handle: ScopedNode) -> Option<NodeModel> {
    if handle.source > world.linked.len() {
        None
    } else {
        let nodes = world.graph(handle.source as int).nodes;
        match last_node(nodes, nodes.len() as int, handle.id) {
            Some(at) => Some(nodes[at]),
            None => None,
        }
    }
}

/// The edge a handle is of.
pub open spec fn edge_of_handle(world: World, handle: ScopedEdge) -> Option<EdgeModel> {
    if handle.source > world.linked.len() {
        None
    } else {
        let edges = world.graph(handle.source as int).edges;
        match last_edge(edges, edges.len() as int, handle.id) {
            Some(at) => Some(edges[at]),
            None => None,
        }
    }
}

/// What reads: the root, its linked sources, the parameters and the context.
pub struct Executor<'a> {
    pub(crate) root: &'a Graph,
    pub(crate) linked: &'a [LinkedSource<'a>],
    pub(crate) parameters: &'a Parameters,
    pub(crate) context: &'a DatabaseContext,
}

impl<'a> View for Executor<'a> {
    type V = World;

    open(crate) spec fn view(&self) -> World {
        World {
            root: self.root@,
            linked: views(self.linked@),
            parameters: self.parameters@,
            context: self.context@,
        }
    }
}

impl<'a> Executor<'a> {
    /// The records of a source.
    pub(crate) fn graph_of(&self, source: u32) -> (graph: &'a Graph)
        requires
            source <= self@.linked.len(),
        ensures
            graph@ == self@.graph(source as int),
    {
        if source == 0 {
            self.root
        } else {
            assert(views(self.linked@)[source - 1] == self.linked@[source - 1]@);
            self.linked[source as usize - 1].graph
        }
    }

    /// The node a handle is of.
    pub(crate) fn node(&self, handle: ScopedNode) -> (found: Option<&'a Node>)
        ensures
            match found {
                Some(node) => node_of_handle(self@, handle) == Some(node@),
                None => node_of_handle(self@, handle) is None,
            },
    {
        if handle.source as usize > self.linked.len() {
            return None;
        }
        let graph = self.graph_of(handle.source);
        let ghost models = graph@.nodes;
        let mut at: usize = graph.nodes.len();
        while at > 0
            invariant
                at <= graph.nodes@.len(),
                models == graph@.nodes,
                last_node(models, models.len() as int, handle.id) == last_node(
                    models,
                    at as int,
                    handle.id,
                ),
                handle.source <= self@.linked.len(),
                models == self@.graph(handle.source as int).nodes,
            decreases at,
        {
            assert(models[at - 1] == graph.nodes@[at - 1]@);
            if graph.nodes[at - 1].id.same(&handle.id) {
                proof {
                    LocalNodeId::same_bytes(graph.nodes@[at - 1].id, handle.id);
                }
                return Some(&graph.nodes[at - 1]);
            }
            at = at - 1;
        }
        None
    }

    /// The edge a handle is of.
    pub(crate) fn edge(&self, handle: ScopedEdge) -> (found: Option<&'a Edge>)
        ensures
            match found {
                Some(edge) => edge_of_handle(self@, handle) == Some(edge@),
                None => edge_of_handle(self@, handle) is None,
            },
    {
        if handle.source as usize > self.linked.len() {
            return None;
        }
        let graph = self.graph_of(handle.source);
        let ghost models = graph@.edges;
        let mut at: usize = graph.edges.len();
        while at > 0
            invariant
                at <= graph.edges@.len(),
                models == graph@.edges,
                last_edge(models, models.len() as int, handle.id) == last_edge(
                    models,
                    at as int,
                    handle.id,
                ),
                handle.source <= self@.linked.len(),
                models == self@.graph(handle.source as int).edges,
            decreases at,
        {
            assert(models[at - 1] == graph.edges@[at - 1]@);
            if graph.edges[at - 1].id.same(&handle.id) {
                proof {
                    LocalEdgeId::same_bytes(graph.edges@[at - 1].id, handle.id);
                }
                return Some(&graph.edges[at - 1]);
            }
            at = at - 1;
        }
        None
    }
}

// -- Properties --------------------------------------------------------------------

/// The first property with a key, from `at` on.
pub open spec fn property_at(
    properties: Seq<(Seq<char>, PropertyModel)>,
    key: Seq<char>,
    at: int,
) -> Option<int>
    decreases properties.len() - at,
{
    if at < 0 || at >= properties.len() {
        None
    } else if properties[at].0 == key {
        Some(at)
    } else {
        property_at(properties, key, at + 1)
    }
}

/// The value of the first property with a key, or null.
pub open spec fn property_or_null(
    properties: Seq<(Seq<char>, PropertyModel)>,
    key: Seq<char>,
) -> QueryModel {
    match property_at(properties, key, 0) {
        Some(at) => of_property(properties[at].1),
        None => QueryModel::Null,
    }
}

/// The property of a bound value. Of anything that is no record it is null, which is what
/// keeps an unmatched `OPTIONAL MATCH` row usable.
pub open spec fn property_of(world: World, bound: QueryModel, key: Seq<char>) -> QueryModel {
    match bound {
        QueryModel::Node(handle) => match node_of_handle(world, handle) {
            Some(node) => property_or_null(node.properties, key),
            None => QueryModel::Null,
        },
        QueryModel::Relationship(handle) => match edge_of_handle(world, handle) {
            Some(edge) => property_or_null(edge.properties, key),
            None => QueryModel::Null,
        },
        _ => QueryModel::Null,
    }
}

/// The first property with a key.
pub(crate) fn find_property(properties: &Vec<(PropertyKey, PropertyValue)>, key: &str) -> (found:
    Option<usize>)
    ensures
        match found {
            Some(at) => at < properties@.len() && property_at(pairs(properties@), key@, 0) == Some(
                at as int,
            ),
            None => property_at(pairs(properties@), key@, 0) is None,
        },
{
    let ghost models = pairs(properties@);
    let mut at: usize = 0;
    while at < properties.len()
        invariant
            at <= properties@.len(),
            models == pairs(properties@),
            property_at(models, key@, 0) == property_at(models, key@, at as int),
        decreases properties@.len() - at,
    {
        assert(models[at as int] == (properties@[at as int].0@, properties@[at as int].1@));
        if same(properties[at].0.as_str(), key) {
            return Some(at);
        }
        at = at + 1;
    }
    None
}

fn read_property(properties: &Vec<(PropertyKey, PropertyValue)>, key: &str) -> (value: QueryValue)
    ensures
        value@ == property_or_null(pairs(properties@), key@),
{
    match find_property(properties, key) {
        Some(at) => QueryValue::from_property(&properties[at].1),
        None => QueryValue::Null,
    }
}

impl<'a> Executor<'a> {
    pub(crate) fn property_of(&self, bound: &QueryValue, key: &str) -> (value: QueryValue)
        ensures
            value@ == property_of(self@, bound@, key@),
    {
        match bound {
            QueryValue::Node(handle) => match self.node(*handle) {
                Some(node) => read_property(&node.properties, key),
                None => QueryValue::Null,
            },
            QueryValue::Relationship(handle) => match self.edge(*handle) {
                Some(edge) => read_property(&edge.properties, key),
                None => QueryValue::Null,
            },
            _ => QueryValue::Null,
        }
    }
}

// -- Arithmetic --------------------------------------------------------------------

/// The size of a number.
pub open spec fn size_of(number: int) -> int {
    if number < 0 {
        -number
    } else {
        number
    }
}

/// The quotient of two numbers, rounded toward zero.
pub open spec fn quotient(left: int, right: int) -> int {
    let whole = size_of(left) / size_of(right);
    if (left < 0) != (right < 0) {
        -whole
    } else {
        whole
    }
}

/// The remainder that belongs to [`quotient`], with the sign of the first number.
pub open spec fn remainder(left: int, right: int) -> int {
    let rest = size_of(left) % size_of(right);
    if left < 0 {
        -rest
    } else {
        rest
    }
}

/// A number as a value, or null where it does not fit.
pub open spec fn integer_or_null(number: int) -> QueryModel {
    if i64::MIN <= number <= i64::MAX {
        QueryModel::Integer(number as i64)
    } else {
        QueryModel::Null
    }
}

/// What an arithmetic operator yields. Texts can be put together; apart from that both
/// sides are integers, and overflow and division by zero yield null.
pub open spec fn calculated(
    operator: BinaryOperator,
    left: QueryModel,
    right: QueryModel,
) -> QueryModel {
    match (left, right) {
        (QueryModel::Text(a), QueryModel::Text(b)) => if operator == BinaryOperator::Add {
            QueryModel::Text(a + b)
        } else {
            QueryModel::Null
        },
        (QueryModel::Integer(a), QueryModel::Integer(b)) => match operator {
            BinaryOperator::Add => integer_or_null(a + b),
            BinaryOperator::Subtract => integer_or_null(a - b),
            BinaryOperator::Multiply => integer_or_null(a * b),
            BinaryOperator::Divide => if b == 0 {
                QueryModel::Null
            } else {
                integer_or_null(quotient(a as int, b as int))
            },
            BinaryOperator::Modulo => if b == 0 || (a == i64::MIN && b == -1) {
                QueryModel::Null
            } else {
                integer_or_null(remainder(a as int, b as int))
            },
            _ => QueryModel::Null,
        },
        _ => QueryModel::Null,
    }
}

fn fitted(number: i128) -> (value: QueryValue)
    ensures
        value@ == integer_or_null(number as int),
{
    if number >= i64::MIN as i128 && number <= i64::MAX as i128 {
        QueryValue::Integer(number as i64)
    } else {
        QueryValue::Null
    }
}

fn magnitude_of(number: i64) -> (size: u64)
    ensures
        size == size_of(number as int),
        size <= 9223372036854775808,
{
    if number < 0 {
        (-(number as i128)) as u64
    } else {
        number as u64
    }
}

fn arithmetic(operator: BinaryOperator, left: &QueryValue, right: &QueryValue) -> (value: QueryValue)
    ensures
        value@ == calculated(operator, left@, right@),
{
    match (left, right) {
        (QueryValue::Text(a), QueryValue::Text(b)) => {
            if operator == BinaryOperator::Add {
                QueryValue::Text(joined(a.as_str(), b.as_str()))
            } else {
                QueryValue::Null
            }
        }
        (QueryValue::Integer(a), QueryValue::Integer(b)) => match operator {
            BinaryOperator::Add => fitted(*a as i128 + *b as i128),
            BinaryOperator::Subtract => fitted(*a as i128 - *b as i128),
            BinaryOperator::Multiply => match a.checked_mul(*b) {
                Some(product) => QueryValue::Integer(product),
                None => QueryValue::Null,
            },
            BinaryOperator::Divide => {
                if *b == 0 {
                    QueryValue::Null
                } else {
                    let whole: u64 = magnitude_of(*a) / magnitude_of(*b);
                    if (*a < 0) != (*b < 0) {
                        fitted(-(whole as i128))
                    } else {
                        fitted(whole as i128)
                    }
                }
            }
            BinaryOperator::Modulo => {
                if *b == 0 || (*a == i64::MIN && *b == -1) {
                    QueryValue::Null
                } else {
                    let rest: u64 = magnitude_of(*a) % magnitude_of(*b);
                    if *a < 0 {
                        fitted(-(rest as i128))
                    } else {
                        fitted(rest as i128)
                    }
                }
            }
            _ => QueryValue::Null,
        },
        _ => QueryValue::Null,
    }
}

/// Whether a list holds a value equal to this one, from `at` on.
pub open spec fn holds_equal(items: Seq<QueryModel>, value: QueryModel, at: int) -> bool
    decreases items.len() - at,
{
    if at < 0 || at >= items.len() {
        false
    } else {
        equal(items[at], value) || holds_equal(items, value, at + 1)
    }
}

/// What an operator that needs both sides yields.
pub open spec fn combined(
    operator: BinaryOperator,
    left: QueryModel,
    right: QueryModel,
) -> QueryModel {
    match operator {
        BinaryOperator::Equal => QueryModel::Boolean(equal(left, right)),
        BinaryOperator::NotEqual => QueryModel::Boolean(!equal(left, right)),
        BinaryOperator::Less => if left == QueryModel::Null || right == QueryModel::Null {
            QueryModel::Null
        } else {
            QueryModel::Boolean(compared(left, right) == Relation::Below)
        },
        BinaryOperator::LessEqual => if left == QueryModel::Null || right == QueryModel::Null {
            QueryModel::Null
        } else {
            QueryModel::Boolean(compared(left, right) != Relation::Above)
        },
        BinaryOperator::Greater => if left == QueryModel::Null || right == QueryModel::Null {
            QueryModel::Null
        } else {
            QueryModel::Boolean(compared(left, right) == Relation::Above)
        },
        BinaryOperator::GreaterEqual => if left == QueryModel::Null || right == QueryModel::Null {
            QueryModel::Null
        } else {
            QueryModel::Boolean(compared(left, right) != Relation::Below)
        },
        BinaryOperator::In => match right {
            QueryModel::List(items) => QueryModel::Boolean(holds_equal(items, left, 0)),
            _ => QueryModel::Null,
        },
        _ => calculated(operator, left, right),
    }
}

fn contains_equal(items: &Vec<QueryValue>, value: &QueryValue) -> (answer: bool)
    ensures
        answer == holds_equal(views(items@), value@, 0),
{
    let ghost models = views(items@);
    let mut at: usize = 0;
    while at < items.len()
        invariant
            at <= items@.len(),
            models == views(items@),
            holds_equal(models, value@, 0) == holds_equal(models, value@, at as int),
        decreases items@.len() - at,
    {
        assert(models[at as int] == items@[at as int]@);
        if items[at].is_equal(value) {
            return true;
        }
        at = at + 1;
    }
    false
}

fn combine(operator: BinaryOperator, left: &QueryValue, right: &QueryValue) -> (value: QueryValue)
    ensures
        value@ == combined(operator, left@, right@),
{
    match operator {
        BinaryOperator::Equal => QueryValue::Boolean(left.is_equal(right)),
        BinaryOperator::NotEqual => QueryValue::Boolean(!left.is_equal(right)),
        BinaryOperator::Less
        | BinaryOperator::LessEqual
        | BinaryOperator::Greater
        | BinaryOperator::GreaterEqual => {
            if left.is_null() || right.is_null() {
                return QueryValue::Null;
            }
            let relation = left.relation(right);
            QueryValue::Boolean(
                match operator {
                    BinaryOperator::Less => relation == Relation::Below,
                    BinaryOperator::LessEqual => relation != Relation::Above,
                    BinaryOperator::Greater => relation == Relation::Above,
                    _ => relation != Relation::Below,
                },
            )
        }
        BinaryOperator::In => match right {
            QueryValue::List(items) => {
                proof {
                    list_model(items@);
                }
                QueryValue::Boolean(contains_equal(items, left))
            }
            _ => QueryValue::Null,
        },
        _ => arithmetic(operator, left, right),
    }
}

// -- Functions ---------------------------------------------------------------------

/// What `str::to_uppercase` makes of a text.
pub uninterp spec fn uppercase_of(text: Seq<char>) -> Seq<char>;

/// What `str::to_lowercase` makes of a text.
pub uninterp spec fn lowercase_of(text: Seq<char>) -> Seq<char>;

/// `str::to_uppercase`: the upper-case form of a text, which goes by the text alone.
#[verifier::external_body]
fn to_upper(text: &str) -> (upper: String)
    ensures
        upper@ == uppercase_of(text@),
{
    text.to_uppercase()
}

/// `str::to_lowercase`: the lower-case form of a text, which goes by the text alone.
#[verifier::external_body]
fn to_lower(text: &str) -> (lower: String)
    ensures
        lower@ == lowercase_of(text@),
{
    text.to_lowercase()
}

/// Whether a name, in lower case, lies in the namespace of this database.
pub open spec fn in_namespace(lower: Seq<char>) -> bool {
    lower.len() >= 7 && lower.take(7) == "nostdb."@
}

/// Whether a name, in lower case, is that of a scalar function.
pub open spec fn scalar_function(lower: Seq<char>) -> bool {
    ||| lower == "toupper"@
    ||| lower == "tolower"@
    ||| lower == "size"@
    ||| lower == "labels"@
    ||| lower == "type"@
    ||| lower == "coalesce"@
}

/// The first value that is not null, from `at` on.
pub open spec fn first_present(values: Seq<QueryModel>, at: int) -> QueryModel
    decreases values.len() - at,
{
    if at < 0 || at >= values.len() {
        QueryModel::Null
    } else if values[at] != QueryModel::Null {
        values[at]
    } else {
        first_present(values, at + 1)
    }
}

/// What a scalar function yields.
pub open spec fn scalar_value(world: World, lower: Seq<char>, values: Seq<QueryModel>) -> QueryModel {
    let first = if values.len() > 0 {
        values[0]
    } else {
        QueryModel::Null
    };
    if lower == "toupper"@ {
        match first {
            QueryModel::Text(text) => QueryModel::Text(uppercase_of(text)),
            _ => QueryModel::Null,
        }
    } else if lower == "tolower"@ {
        match first {
            QueryModel::Text(text) => QueryModel::Text(lowercase_of(text)),
            _ => QueryModel::Null,
        }
    } else if lower == "size"@ {
        match first {
            QueryModel::List(items) => QueryModel::Integer(items.len() as i64),
            QueryModel::Text(text) => QueryModel::Integer(text.len() as i64),
            _ => QueryModel::Null,
        }
    } else if lower == "labels"@ {
        match first {
            QueryModel::Node(handle) => match node_of_handle(world, handle) {
                Some(node) => QueryModel::List(
                    Seq::new(node.labels.len(), |i: int| QueryModel::Text(node.labels[i])),
                ),
                None => QueryModel::Null,
            },
            _ => QueryModel::Null,
        }
    } else if lower == "type"@ {
        match first {
            QueryModel::Relationship(handle) => match edge_of_handle(world, handle) {
                Some(edge) => QueryModel::Text(edge.relation),
                None => QueryModel::Null,
            },
            _ => QueryModel::Null,
        }
    } else {
        first_present(values, 0)
    }
}

/// The source a record handle is of.
pub open spec fn source_of_record(value: QueryModel) -> Option<u32> {
    match value {
        QueryModel::Node(handle) => Some(handle.source),
        QueryModel::Relationship(handle) => Some(handle.source),
        _ => None,
    }
}

/// Where a record came from, which only the handle says. `None` for anything else.
pub open spec fn source_answer(
    world: World,
    lower: Seq<char>,
    values: Seq<QueryModel>,
) -> Option<QueryModel> {
    if lower != "nostdb.source"@ && lower != "nostdb.link_alias"@ {
        None
    } else if values.len() == 0 || values[0] == QueryModel::Null {
        Some(QueryModel::Null)
    } else {
        match source_of_record(values[0]) {
            None => None,
            Some(source) => Some(
                if lower == "nostdb.link_alias"@ {
                    match world.locator(source as int) {
                        None => QueryModel::Null,
                        Some(locator) => match find_link(world.root.links, locator, 0) {
                            Some(at) => optional_text_model(world.root.links[at].alias),
                            None => QueryModel::Null,
                        },
                    }
                } else {
                    match world.locator(source as int) {
                        Some(locator) => QueryModel::Text(locator),
                        None => optional_text_model(world.context.source),
                    }
                },
            ),
        }
    }
}

/// The graph that holds the record a function or procedure is asked about. Without one it
/// is the root.
pub open spec fn holder(world: World, values: Seq<QueryModel>) -> GraphModel {
    if values.len() == 0 {
        world.root
    } else {
        match source_of_record(values[0]) {
            Some(source) => world.graph(source as int),
            None => world.root,
        }
    }
}

/// What a call of a function that is no aggregate yields.
pub open spec fn called(world: World, name: Seq<char>, values: Seq<QueryModel>) -> Result<
    QueryModel,
    QueryErrorModel,
> {
    let lower = lowered(name);
    if in_namespace(lower) {
        match source_answer(world, lower, values) {
            Some(answer) => Ok(answer),
            None => function_value(
                lower,
                values,
                holder(world, values),
                world.context,
                SourceRange::at_origin(),
            ),
        }
    } else if !scalar_function(lower) {
        Err(meaningless("unknown function `"@ + name + "`"@, SourceRange::at_origin()))
    } else {
        Ok(scalar_value(world, lower, values))
    }
}

fn starts_with_namespace(lower: &str) -> (answer: bool)
    ensures
        answer == in_namespace(lower@),
{
    proof {
        reveal_strlit("nostdb.");
    }
    let all = characters(lower);
    let answer = all.len() >= 7 && all[0] == 'n' && all[1] == 'o' && all[2] == 's' && all[3] == 't'
        && all[4] == 'd' && all[5] == 'b' && all[6] == '.';
    proof {
        if lower@.len() >= 7 {
            let front = lower@.take(7);
            assert(front[0] == lower@[0] && front[1] == lower@[1] && front[2] == lower@[2]
                && front[3] == lower@[3] && front[4] == lower@[4] && front[5] == lower@[5]
                && front[6] == lower@[6]);
            if answer {
                assert(front =~= "nostdb."@);
            }
        }
    }
    answer
}

fn label_list(node: &Node) -> (value: QueryValue)
    ensures
        value@ == QueryModel::List(
            Seq::new(node@.labels.len(), |i: int| QueryModel::Text(node@.labels[i])),
        ),
{
    let ghost models = node@.labels;
    let ghost all = Seq::new(models.len(), |i: int| QueryModel::Text(models[i]));
    let mut list: Vec<QueryValue> = Vec::new();
    let mut at: usize = 0;
    while at < node.labels.len()
        invariant
            at <= node.labels@.len(),
            models == node@.labels,
            all == Seq::new(models.len(), |i: int| QueryModel::Text(models[i])),
            views(list@) =~= all.take(at as int),
        decreases node.labels@.len() - at,
    {
        assert(models[at as int] == node.labels@[at as int]@);
        let item = QueryValue::Text(node.labels[at].as_str().to_owned());
        proof {
            views_push(list@, item);
        }
        list.push(item);
        at = at + 1;
    }
    proof {
        assert(all.take(all.len() as int) =~= all);
        assert(all =~= Seq::new(node@.labels.len(), |i: int| QueryModel::Text(node@.labels[i])));
    }
    list_value(list)
}

fn first_of(values: &Vec<QueryValue>) -> (value: QueryValue)
    ensures
        value@ == first_present(views(values@), 0),
{
    let ghost models = views(values@);
    let mut at: usize = 0;
    while at < values.len()
        invariant
            at <= values@.len(),
            models == views(values@),
            first_present(models, 0) == first_present(models, at as int),
        decreases values@.len() - at,
    {
        assert(models[at as int] == values@[at as int]@);
        if !values[at].is_null() {
            return copy_value(&values[at]);
        }
        at = at + 1;
    }
    QueryValue::Null
}

fn alias_of(links: &Vec<crate::link::Link>, locator: &str) -> (value: QueryValue)
    ensures
        value@ == (match find_link(views(links@), locator@, 0) {
            Some(at) => optional_text_model(views(links@)[at].alias),
            None => QueryModel::Null,
        }),
{
    let ghost models = views(links@);
    let mut at: usize = 0;
    while at < links.len()
        invariant
            at <= links@.len(),
            models == views(links@),
            find_link(models, locator@, 0) == find_link(models, locator@, at as int),
        decreases links@.len() - at,
    {
        assert(models[at as int] == links@[at as int]@);
        if same(links[at].source.as_str(), locator) {
            return match &links[at].alias {
                Some(alias) => QueryValue::Text(alias.as_str().to_owned()),
                None => QueryValue::Null,
            };
        }
        at = at + 1;
    }
    QueryValue::Null
}

fn record_source(value: &QueryValue) -> (source: Option<u32>)
    ensures
        source == source_of_record(value@),
{
    match value {
        QueryValue::Node(handle) => Some(handle.source),
        QueryValue::Relationship(handle) => Some(handle.source),
        _ => None,
    }
}

impl<'a> Executor<'a> {
    fn locator_of(&self, source: u32) -> (found: Option<&'a CanonicalSourceLocator>)
        ensures
            match found {
                Some(locator) => self@.locator(source as int) == Some(locator@),
                None => self@.locator(source as int) is None,
            },
    {
        if source == 0 || source as usize > self.linked.len() {
            None
        } else {
            assert(views(self.linked@)[source - 1] == self.linked@[source - 1]@);
            Some(self.linked[source as usize - 1].locator)
        }
    }

    /// The graph that holds the record a function or procedure is asked about.
    pub(crate) fn holder(&self, values: &Vec<QueryValue>) -> (graph: &'a Graph)
        ensures
            graph@ == holder(self@, views(values@)),
    {
        if values.len() == 0 {
            return self.root;
        }
        assert(views(values@)[0] == values@[0]@);
        match record_source(&values[0]) {
            Some(source) => {
                if source == 0 || source as usize > self.linked.len() {
                    self.root
                } else {
                    self.graph_of(source)
                }
            }
            None => self.root,
        }
    }

    fn source_function(&self, lower: &str, values: &Vec<QueryValue>) -> (answer: Option<QueryValue>)
        ensures
            view_of(answer) == source_answer(self@, lower@, views(values@)),
    {
        let alias = same(lower, "nostdb.link_alias");
        if !alias && !same(lower, "nostdb.source") {
            return None;
        }
        if values.len() == 0 {
            return Some(QueryValue::Null);
        }
        assert(views(values@)[0] == values@[0]@);
        if values[0].is_null() {
            return Some(QueryValue::Null);
        }
        let source = match record_source(&values[0]) {
            None => return None,
            Some(found) => found,
        };
        let locator = self.locator_of(source);
        if alias {
            match locator {
                None => Some(QueryValue::Null),
                Some(found) => Some(alias_of(&self.root.links, found.as_str())),
            }
        } else {
            match locator {
                Some(found) => Some(QueryValue::Text(found.as_str().to_owned())),
                None => match &self.context.source {
                    Some(found) => Some(QueryValue::Text(found.as_str().to_owned())),
                    None => Some(QueryValue::Null),
                },
            }
        }
    }

    fn scalar(&self, lower: &str, values: &Vec<QueryValue>) -> (value: QueryValue)
        ensures
            value@ == scalar_value(self@, lower@, views(values@)),
    {
        let none = QueryValue::Null;
        assert(values@.len() > 0 ==> views(values@)[0] == values@[0]@);
        let first = if values.len() > 0 {
            &values[0]
        } else {
            &none
        };
        if same(lower, "toupper") {
            match first {
                QueryValue::Text(text) => QueryValue::Text(to_upper(text.as_str())),
                _ => QueryValue::Null,
            }
        } else if same(lower, "tolower") {
            match first {
                QueryValue::Text(text) => QueryValue::Text(to_lower(text.as_str())),
                _ => QueryValue::Null,
            }
        } else if same(lower, "size") {
            match first {
                QueryValue::List(items) => {
                    proof {
                        list_model(items@);
                    }
                    QueryValue::Integer(items.len() as i64)
                }
                QueryValue::Text(text) => {
                    let count: usize = text.as_str().unicode_len();
                    QueryValue::Integer(count as i64)
                }
                _ => QueryValue::Null,
            }
        } else if same(lower, "labels") {
            match first {
                QueryValue::Node(handle) => match self.node(*handle) {
                    Some(node) => label_list(node),
                    None => QueryValue::Null,
                },
                _ => QueryValue::Null,
            }
        } else if same(lower, "type") {
            match first {
                QueryValue::Relationship(handle) => match self.edge(*handle) {
                    Some(edge) => QueryValue::Text(edge.relation.as_str().to_owned()),
                    None => QueryValue::Null,
                },
                _ => QueryValue::Null,
            }
        } else {
            first_of(values)
        }
    }

    fn call_function(&self, name: &str, values: &Vec<QueryValue>) -> (made: Result<
        QueryValue,
        QueryError,
    >)
        ensures
            match made {
                Ok(value) => called(self@, name@, views(values@)) matches Ok(model) && model
                    == value@,
                Err(error) => called(self@, name@, views(values@)) matches Err(wrong) && wrong
                    == error@,
            },
    {
        let lower = lower_text(name);
        let word = lower.as_str();
        if starts_with_namespace(word) {
            return match self.source_function(word, values) {
                Some(answer) => Ok(answer),
                None => function(
                    word,
                    values.as_slice(),
                    self.holder(values),
                    self.context,
                    SourceRange::origin(),
                ),
            };
        }
        if !(same(word, "toupper") || same(word, "tolower") || same(word, "size") || same(
            word,
            "labels",
        ) || same(word, "type") || same(word, "coalesce")) {
            let mut message = joined("unknown function `", name);
            message.append("`");
            return Err(unbound(message.as_str()));
        }
        Ok(self.scalar(word, values))
    }
}

// -- Expressions -------------------------------------------------------------------

/// What aggregates were folded to, and the place of the next one. Without one, an aggregate
/// is refused.
pub type Folded = Option<(Seq<QueryModel>, nat)>;

/// The place behind some more aggregates.
pub open spec fn further(folded: Folded, more: nat) -> Folded {
    match folded {
        None => None,
        Some((values, at)) => Some((values, at + more)),
    }
}

/// What the expressions from `at` on evaluate to, behind the values before them.
pub open spec fn evaluated_from(
    world: World,
    items: Seq<Expression>,
    at: int,
    bindings: Map<Seq<char>, QueryModel>,
    folded: Folded,
    before: Seq<QueryModel>,
) -> Result<Seq<QueryModel>, QueryErrorModel>
    decreases items, items.len() - at,
{
    if at < 0 || at >= items.len() {
        Ok(before)
    } else {
        match evaluated(
            world,
            items[at],
            bindings,
            further(folded, aggregates_in(items, at)),
        ) {
            Err(wrong) => Err(wrong),
            Ok(value) => evaluated_from(world, items, at + 1, bindings, folded, before.push(value)),
        }
    }
}

/// What an expression evaluates to.
pub open spec fn evaluated(
    world: World,
    expression: Expression,
    bindings: Map<Seq<char>, QueryModel>,
    folded: Folded,
) -> Result<QueryModel, QueryErrorModel>
    decreases expression, 0int,
{
    let origin = SourceRange::at_origin();
    match expression {
        Expression::Integer(value) => Ok(QueryModel::Integer(value)),
        Expression::Float(text) => match read_double(text@) {
            Some(bits) => if finite(bits) {
                Ok(QueryModel::Float(bits))
            } else {
                Ok(QueryModel::Null)
            },
            None => Ok(QueryModel::Null),
        },
        Expression::Text(value) => Ok(QueryModel::Text(value@)),
        Expression::Boolean(value) => Ok(QueryModel::Boolean(value)),
        Expression::Null => Ok(QueryModel::Null),
        Expression::Parameter(name) => match found_in(world.parameters, name@) {
            Some(value) => Ok(value),
            None => Err(
                meaningless("the parameter `$"@ + name@ + "` was not supplied"@, origin),
            ),
        },
        Expression::Variable(name) => match found_in(bindings, name@) {
            Some(value) => Ok(value),
            None => Err(meaningless("`"@ + name@ + "` is not bound"@, origin)),
        },
        Expression::Property { variable, key } => match found_in(bindings, variable@) {
            Some(bound) => Ok(property_of(world, bound, key@)),
            None => Err(meaningless("`"@ + variable@ + "` is not bound"@, origin)),
        },
        Expression::List(items) => match evaluated_from(
            world,
            items@,
            0,
            bindings,
            folded,
            Seq::empty(),
        ) {
            Err(wrong) => Err(wrong),
            Ok(values) => Ok(QueryModel::List(values)),
        },
        Expression::Not(inner) => match evaluated(world, *inner, bindings, folded) {
            Err(wrong) => Err(wrong),
            Ok(value) => Ok(QueryModel::Boolean(!value.truthy())),
        },
        Expression::Call { name, arguments } => if aggregate_name(lowered(name@)) {
            match folded {
                Some((values, at)) => Ok(values[at as int]),
                None => Err(
                    meaningless("`"@ + name@ + "` is an aggregate and is not allowed here"@, origin),
                ),
            }
        } else {
            match evaluated_from(world, arguments@, 0, bindings, folded, Seq::empty()) {
                Err(wrong) => Err(wrong),
                Ok(values) => called(world, name@, values),
            }
        },
        Expression::Binary { operator, left, right } => match evaluated(
            world,
            *left,
            bindings,
            folded,
        ) {
            Err(wrong) => Err(wrong),
            Ok(first) => if operator == BinaryOperator::And && !first.truthy() {
                Ok(QueryModel::Boolean(false))
            } else if operator == BinaryOperator::Or && first.truthy() {
                Ok(QueryModel::Boolean(true))
            } else {
                match evaluated(world, *right, bindings, further(folded, aggregates_of(*left))) {
                    Err(wrong) => Err(wrong),
                    Ok(second) => if operator == BinaryOperator::And || operator
                        == BinaryOperator::Or {
                        Ok(QueryModel::Boolean(second.truthy()))
                    } else {
                        Ok(combined(operator, first, second))
                    },
                }
            },
        },
    }
}

/// What aggregates were folded to, and the place of the next one.
#[derive(Clone, Copy)]
pub(crate) struct FoldedValues<'a> {
    pub(crate) values: &'a Vec<QueryValue>,
    pub(crate) at: usize,
}

/// What folded values stand for.
pub(crate) open(crate) spec fn folded_model(folded: Option<FoldedValues>) -> Folded {
    match folded {
        None => None,
        Some(found) => Some((views(found.values@), found.at as nat)),
    }
}

/// Whether enough values were folded for so many aggregates.
pub(crate) open(crate) spec fn enough(folded: Option<FoldedValues>, count: nat) -> bool {
    match folded {
        None => true,
        Some(found) => found.at + count <= found.values@.len(),
    }
}

fn count_in(items: &Vec<Expression>, upto: usize) -> (count: usize)
    requires
        upto <= items@.len(),
        aggregates_in(items@, upto as int) <= usize::MAX,
    ensures
        count == aggregates_in(items@, upto as int),
    decreases items, upto,
{
    if upto == 0 {
        0
    } else {
        let before = count_in(items, upto - 1);
        assert(decreases_to!(items => items@[upto - 1]));
        before + count_aggregates(&items[upto - 1])
    }
}

/// How many aggregates an expression holds.
fn count_aggregates(expression: &Expression) -> (count: usize)
    requires
        aggregates_of(*expression) <= usize::MAX,
    ensures
        count == aggregates_of(*expression),
    decreases expression, 0usize,
{
    match expression {
        Expression::Call { name, arguments } => {
            if is_aggregate(name.as_str()) {
                1
            } else {
                count_in(arguments, arguments.len())
            }
        }
        Expression::List(items) => count_in(items, items.len()),
        Expression::Not(inner) => count_aggregates(inner),
        Expression::Binary { left, right, .. } => {
            let first = count_aggregates(left);
            first + count_aggregates(right)
        }
        _ => 0,
    }
}

proof fn aggregates_grow(items: Seq<Expression>, at: int, count: int)
    requires
        0 <= at < count <= items.len(),
    ensures
        aggregates_in(items, at) + aggregates_of(items[at]) <= aggregates_in(items, count),
    decreases count,
{
    if at < count - 1 {
        aggregates_grow(items, at, count - 1);
    }
}

fn not_bound(name: &str) -> (error: QueryError)
    ensures
        error@ == meaningless("`"@ + name@ + "` is not bound"@, SourceRange::at_origin()),
{
    let mut message = joined("`", name);
    message.append("` is not bound");
    unbound(message.as_str())
}

impl<'a> Executor<'a> {
    /// Evaluates expressions, one after another.
    fn evaluate_all(
        &self,
        items: &Vec<Expression>,
        bindings: &Bindings,
        folded: Option<FoldedValues>,
    ) -> (made: Result<Vec<QueryValue>, QueryError>)
        requires
            enough(folded, aggregates_in(items@, items@.len() as int)),
        ensures
            match made {
                Ok(values) => evaluated_from(
                    self@,
                    items@,
                    0,
                    bindings@,
                    folded_model(folded),
                    Seq::empty(),
                ) matches Ok(model) && model == views(values@),
                Err(error) => evaluated_from(
                    self@,
                    items@,
                    0,
                    bindings@,
                    folded_model(folded),
                    Seq::empty(),
                ) matches Err(wrong) && wrong == error@,
            },
        decreases items, 0usize,
    {
        let ghost world = self@;
        let ghost model = folded_model(folded);
        let mut values: Vec<QueryValue> = Vec::new();
        assert(views(values@) =~= Seq::<QueryModel>::empty());
        let mut at: usize = 0;
        let mut place: usize = 0;
        while at < items.len()
            invariant
                at <= items@.len(),
                world == self@,
                model == folded_model(folded),
                enough(folded, aggregates_in(items@, items@.len() as int)),
                folded is Some ==> place == aggregates_in(items@, at as int),
                evaluated_from(world, items@, 0, bindings@, model, Seq::empty())
                    == evaluated_from(
                    world,
                    items@,
                    at as int,
                    bindings@,
                    model,
                    views(values@),
                ),
            decreases items@.len() - at,
        {
            assert(decreases_to!(items => items@[at as int]));
            proof {
                aggregates_grow(items@, at as int, items@.len() as int);
            }
            let own = match folded {
                None => None,
                Some(found) => {
                    let total: usize = found.values.len();
                    assert(found.at + place <= total);
                    Some(FoldedValues { values: found.values, at: found.at + place })
                }
            };
            assert(folded_model(own) == further(model, aggregates_in(items@, at as int)));
            match self.evaluate_folded(&items[at], bindings, own) {
                Err(error) => {
                    return Err(error);
                }
                Ok(value) => {
                    proof {
                        views_push(values@, value);
                    }
                    values.push(value);
                }
            }
            match folded {
                None => {}
                Some(found) => {
                    let total: usize = found.values.len();
                    assert(place + aggregates_of(items@[at as int]) <= total);
                    place = place + count_aggregates(&items[at]);
                }
            }
            at = at + 1;
        }
        Ok(values)
    }

    /// Evaluates an expression whose aggregates were folded.
    pub(crate) fn evaluate_folded(
        &self,
        expression: &Expression,
        bindings: &Bindings,
        folded: Option<FoldedValues>,
    ) -> (made: Result<QueryValue, QueryError>)
        requires
            enough(folded, aggregates_of(*expression)),
        ensures
            match made {
                Ok(value) => evaluated(
                    self@,
                    *expression,
                    bindings@,
                    folded_model(folded),
                ) matches Ok(model) && model == value@,
                Err(error) => evaluated(
                    self@,
                    *expression,
                    bindings@,
                    folded_model(folded),
                ) matches Err(wrong) && wrong == error@,
            },
        decreases expression, 0usize,
    {
        match expression {
            Expression::Integer(value) => Ok(QueryValue::Integer(*value)),
            Expression::Float(text) => match parse_double(text.as_str()) {
                Some(bits) => match FiniteF64::new(bits) {
                    Ok(number) => Ok(QueryValue::Float(number)),
                    Err(_) => Ok(QueryValue::Null),
                },
                None => Ok(QueryValue::Null),
            },
            Expression::Text(value) => Ok(QueryValue::Text(value.clone())),
            Expression::Boolean(value) => Ok(QueryValue::Boolean(*value)),
            Expression::Null => Ok(QueryValue::Null),
            Expression::Parameter(name) => match self.parameters.get(name.as_str()) {
                Some(value) => Ok(copy_value(value)),
                None => {
                    let mut message = joined("the parameter `$", name.as_str());
                    message.append("` was not supplied");
                    Err(unbound(message.as_str()))
                }
            },
            Expression::Variable(name) => match bindings.get(name.as_str()) {
                Some(value) => Ok(copy_value(value)),
                None => Err(not_bound(name.as_str())),
            },
            Expression::Property { variable, key } => match bindings.get(variable.as_str()) {
                Some(bound) => Ok(self.property_of(bound, key.as_str())),
                None => Err(not_bound(variable.as_str())),
            },
            Expression::List(items) => match self.evaluate_all(items, bindings, folded) {
                Err(error) => Err(error),
                Ok(values) => Ok(list_value(values)),
            },
            Expression::Not(inner) => match self.evaluate_folded(inner, bindings, folded) {
                Err(error) => Err(error),
                Ok(value) => Ok(QueryValue::Boolean(!value.is_truthy())),
            },
            Expression::Call { name, arguments } => {
                if is_aggregate(name.as_str()) {
                    return match folded {
                        Some(found) => {
                            assert(views(found.values@)[found.at as int]
                                == found.values@[found.at as int]@);
                            Ok(copy_value(&found.values[found.at]))
                        }
                        None => {
                            let mut message = joined("`", name.as_str());
                            message.append("` is an aggregate and is not allowed here");
                            Err(unbound(message.as_str()))
                        }
                    };
                }
                match self.evaluate_all(arguments, bindings, folded) {
                    Err(error) => Err(error),
                    Ok(values) => self.call_function(name.as_str(), &values),
                }
            }
            Expression::Binary { operator, left, right } => {
                let first = match self.evaluate_folded(left, bindings, folded) {
                    Err(error) => return Err(error),
                    Ok(value) => value,
                };
                if *operator == BinaryOperator::And && !first.is_truthy() {
                    return Ok(QueryValue::Boolean(false));
                }
                if *operator == BinaryOperator::Or && first.is_truthy() {
                    return Ok(QueryValue::Boolean(true));
                }
                let own = match folded {
                    None => None,
                    Some(found) => {
                        let total: usize = found.values.len();
                        assert(found.at + aggregates_of(**left) <= total);
                        Some(
                            FoldedValues {
                                values: found.values,
                                at: found.at + count_aggregates(left),
                            },
                        )
                    }
                };
                let second = match self.evaluate_folded(right, bindings, own) {
                    Err(error) => return Err(error),
                    Ok(value) => value,
                };
                if *operator == BinaryOperator::And || *operator == BinaryOperator::Or {
                    Ok(QueryValue::Boolean(second.is_truthy()))
                } else {
                    Ok(combine(*operator, &first, &second))
                }
            }
        }
    }

    /// Evaluates an expression.
    pub(crate) fn evaluate(&self, expression: &Expression, bindings: &Bindings) -> (made: Result<
        QueryValue,
        QueryError,
    >)
        ensures
            match made {
                Ok(value) => evaluated(
                    self@,
                    *expression,
                    bindings@,
                    None,
                ) matches Ok(model) && model == value@,
                Err(error) => evaluated(
                    self@,
                    *expression,
                    bindings@,
                    None,
                ) matches Err(wrong) && wrong == error@,
            },
    {
        self.evaluate_folded(expression, bindings, None)
    }

    /// Evaluates expressions, one after another.
    pub(crate) fn evaluate_list(&self, items: &Vec<Expression>, bindings: &Bindings) -> (made:
        Result<Vec<QueryValue>, QueryError>)
        ensures
            match made {
                Ok(values) => evaluated_from(
                    self@,
                    items@,
                    0,
                    bindings@,
                    None,
                    Seq::empty(),
                ) matches Ok(model) && model == views(values@),
                Err(error) => evaluated_from(
                    self@,
                    items@,
                    0,
                    bindings@,
                    None,
                    Seq::empty(),
                ) matches Err(wrong) && wrong == error@,
            },
    {
        self.evaluate_all(items, bindings, None)
    }
}

} // verus!
