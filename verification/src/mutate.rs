//! Applying write clauses to a graph.
//!
//! # What a query write owns
//!
//! A write made through the query language is user-owned. It adds a user contribution and
//! leaves every other contribution in place, so refreshing an analyzer later still replaces
//! only that analyzer's work.
//!
//! # Why the model's rules surface as refusals
//!
//! Every node carries a label and every edge has two endpoints. The query language permits
//! `CREATE (n)` and an undirected created relationship, and neither can be stored. Accepting
//! them would mean inventing a label or picking an endpoint order, so they are refused.
//!
//! # Linked records
//!
//! Every mutation here resolves through the root graph, and a handle into a linked source is
//! refused.

use crate::bindings::found_in;
use crate::bindings::Bindings;
use crate::contribution::Contribution;
use crate::contribution::ContributionModel;
use crate::contribution::Owner;
use crate::contribution::OwnerKind;
use crate::contribution::OwnerModel;
use crate::copies::Copied;
use crate::cypher::meaningless;
use crate::cypher::semantic;
use crate::cypher::Direction;
use crate::cypher::NodePattern;
use crate::cypher::Pattern;
use crate::cypher::QueryError;
use crate::cypher::QueryErrorModel;
use crate::cypher::RelationshipPattern;
use crate::cypher::RemoveItem;
use crate::cypher::SetItem;
use crate::diagnostic::DiagnosticCode;
use crate::evaluate::find_property;
use crate::evaluate::property_at;
use crate::evidence::EvidenceModel;
use crate::evidence::SourceRange;
use crate::graph::pairs;
use crate::graph::pairs_push;
use crate::graph::Edge;
use crate::graph::EdgeModel;
use crate::graph::Graph;
use crate::graph::GraphModel;
use crate::graph::Node;
use crate::graph::NodeModel;
use crate::graph::NodeReference;
use crate::graph::ReferenceModel;
use crate::id::LocalEdgeId;
use crate::id::LocalNodeId;
use crate::id::Minter;
use crate::id::SourceUnitId;
use crate::matching::Scope;
use crate::name::name_fault;
use crate::name::Label;
use crate::name::NameError;
use crate::name::PropertyKey;
use crate::name::RelationName;
use crate::nost::convert::starts_with;
use crate::nost::convert::with_new;
use crate::procedure::edge_at;
use crate::procedure::node_at;
use crate::property::PropertyModel;
use crate::property::PropertyScalar;
use crate::property::PropertyValue;
use crate::property::ScalarModel;
use crate::text::joined;
use crate::text::same;
use crate::text::view_of;
use crate::text::views;
use crate::text::views_push;
use crate::value::list_model;
use crate::value::QueryModel;
use crate::value::QueryValue;
use crate::value::Scoped;
use vstd::prelude::*;
use vstd::string::StringExecFns;

verus! {

/// What a query changed. Each count stops at the largest number it can hold.
#[derive(Clone, Copy, Debug, PartialEq, Eq, Structural)]
pub struct WriteSummary {
    /// Nodes created.
    pub nodes_created: u64,
    /// Nodes deleted.
    pub nodes_deleted: u64,
    /// Relationships created.
    pub edges_created: u64,
    /// Relationships deleted.
    pub edges_deleted: u64,
    /// Properties set, counting an overwrite.
    pub properties_set: u64,
    /// Properties removed, including by assigning `null`.
    pub properties_removed: u64,
    /// Labels added.
    pub labels_added: u64,
    /// Labels removed.
    pub labels_removed: u64,
}

impl WriteSummary {
    /// The summary of a query that changed nothing.
    pub open spec fn nothing() -> WriteSummary {
        WriteSummary {
            nodes_created: 0,
            nodes_deleted: 0,
            edges_created: 0,
            edges_deleted: 0,
            properties_set: 0,
            properties_removed: 0,
            labels_added: 0,
            labels_removed: 0,
        }
    }

    /// Reports whether nothing changed.
    ///
    /// A transaction that changed nothing commits without advancing the generation, so
    /// that a read cannot look like a change to synchronization.
    pub fn is_empty(&self) -> (answer: bool)
        ensures
            answer == (*self == WriteSummary::nothing()),
    {
        self.nodes_created == 0 && self.nodes_deleted == 0 && self.edges_created == 0
            && self.edges_deleted == 0 && self.properties_set == 0 && self.properties_removed == 0
            && self.labels_added == 0 && self.labels_removed == 0
    }
}

impl Default for WriteSummary {
    fn default() -> (none: Self)
        ensures
            none == WriteSummary::nothing(),
    {
        WriteSummary {
            nodes_created: 0,
            nodes_deleted: 0,
            edges_created: 0,
            edges_deleted: 0,
            properties_set: 0,
            properties_removed: 0,
            labels_added: 0,
            labels_removed: 0,
        }
    }
}

/// One more, up to the largest count.
pub open spec fn one_more(count: u64) -> u64 {
    if count == u64::MAX {
        count
    } else {
        (count + 1) as u64
    }
}

fn counted(count: u64) -> (more: u64)
    ensures
        more == one_more(count),
{
    if count == u64::MAX {
        count
    } else {
        count + 1
    }
}

/// One evaluated inline property map.
pub type MapValues = Vec<(String, QueryValue)>;

/// The evaluated property maps of one pattern.
///
/// Map values are expressions, so they are evaluated against a row before the graph is
/// changed.
#[derive(Debug)]
pub struct PatternValues {
    /// The first node's map.
    pub start: MapValues,
    /// Each relationship and node pair's maps, in pattern order.
    pub steps: Vec<(MapValues, MapValues)>,
}

/// The model of an evaluated map.
pub open spec fn map_model(values: Seq<(String, QueryValue)>) -> Seq<(Seq<char>, QueryModel)> {
    Seq::new(values.len(), |i: int| (values[i].0@, values[i].1@))
}

/// The evaluated property maps of one pattern.
pub struct PatternModel {
    /// The first node's map.
    pub start: Seq<(Seq<char>, QueryModel)>,
    /// Each relationship and node pair's maps, in pattern order.
    pub steps: Seq<(Seq<(Seq<char>, QueryModel)>, Seq<(Seq<char>, QueryModel)>)>,
}

impl View for PatternValues {
    type V = PatternModel;

    open spec fn view(&self) -> PatternModel {
        PatternModel {
            start: map_model(self.start@),
            steps: Seq::new(
                self.steps@.len(),
                |i: int| (map_model(self.steps@[i].0@), map_model(self.steps@[i].1@)),
            ),
        }
    }
}

// -- Refusals ----------------------------------------------------------------------

/// What is said of a name that is none.
pub open spec fn invalid_name(
    what: Seq<char>,
    value: Seq<char>,
    error: NameError,
    range: SourceRange,
) -> QueryErrorModel {
    meaningless(what + " `"@ + value + "` is invalid: "@ + error.spec_message(), range)
}

fn bad_name(what: &str, value: &str, error: NameError, range: SourceRange) -> (refusal: QueryError)
    ensures
        refusal@ == invalid_name(what@, value@, error, range),
{
    let mut message = joined(what, " `");
    message.append(value);
    message.append("` is invalid: ");
    message.append(error.message().as_str());
    semantic(message.as_str(), range)
}

/// What is said of a write to a record of a linked source.
pub open spec fn read_only(what: Seq<char>, range: SourceRange) -> QueryErrorModel {
    QueryErrorModel {
        code: DiagnosticCode::LinkedDatabaseReadOnly,
        message: what
            + " belongs to a linked source, and a root transaction writes only to its root database"@,
        range,
    }
}

fn refuse_linked(what: &str, range: SourceRange) -> (refusal: QueryError)
    ensures
        refusal@ == read_only(what@, range),
{
    QueryError::at(
        DiagnosticCode::LinkedDatabaseReadOnly,
        joined(
            what,
            " belongs to a linked source, and a root transaction writes only to its root database",
        ),
        range,
    )
}

// -- Stored values -----------------------------------------------------------------

/// A list item as a stored scalar.
pub open spec fn stored_scalar(item: QueryModel) -> Option<ScalarModel> {
    match item {
        QueryModel::Boolean(inner) => Some(ScalarModel::Boolean(inner)),
        QueryModel::Integer(inner) => Some(ScalarModel::Integer(inner)),
        QueryModel::Float(inner) => Some(ScalarModel::Float(inner)),
        QueryModel::Text(inner) => Some(ScalarModel::String(inner)),
        _ => None,
    }
}

/// The list items from `at` on as stored scalars, behind those before them.
pub open spec fn stored_items(
    items: Seq<QueryModel>,
    at: int,
    range: SourceRange,
    before: Seq<ScalarModel>,
) -> Result<Seq<ScalarModel>, QueryErrorModel>
    decreases items.len() - at,
{
    if at < 0 || at >= items.len() {
        Ok(before)
    } else {
        match stored_scalar(items[at]) {
            Some(scalar) => stored_items(items, at + 1, range, before.push(scalar)),
            None => Err(
                meaningless(
                    "a list property holds scalars, and this list holds "@ + items[at].kind(),
                    range,
                ),
            ),
        }
    }
}

/// A value as a stored property, or `None` where it is null.
pub open spec fn stored(value: QueryModel, range: SourceRange) -> Result<
    Option<PropertyModel>,
    QueryErrorModel,
> {
    match value {
        QueryModel::Null => Ok(None),
        QueryModel::List(items) => match stored_items(items, 0, range, Seq::empty()) {
            Err(wrong) => Err(wrong),
            Ok(scalars) => Ok(Some(PropertyModel::List(scalars))),
        },
        _ => match stored_scalar(value) {
            Some(scalar) => Ok(Some(PropertyModel::Scalar(scalar))),
            None => Err(meaningless("a property cannot hold "@ + value.kind(), range)),
        },
    }
}

/// The values from `at` on as stored properties, behind those before them.
pub open spec fn stored_map(
    values: Seq<(Seq<char>, QueryModel)>,
    at: int,
    range: SourceRange,
    before: Seq<(Seq<char>, PropertyModel)>,
) -> Result<Seq<(Seq<char>, PropertyModel)>, QueryErrorModel>
    decreases values.len() - at,
{
    if at < 0 || at >= values.len() {
        Ok(before)
    } else {
        let (key, value) = values[at];
        match name_fault(key) {
            Some(error) => Err(invalid_name("a property key"@, key, error, range)),
            None => match stored(value, range) {
                Err(wrong) => Err(wrong),
                Ok(None) => Err(
                    meaningless(
                        "the property `"@ + key
                            + "` is null, and a stored null is unrepresentable"@,
                        range,
                    ),
                ),
                Ok(Some(found)) => stored_map(values, at + 1, range, before.push((key, found))),
            },
        }
    }
}

fn scalar_of(item: &QueryValue) -> (made: Option<PropertyScalar>)
    ensures
        view_of(made) == stored_scalar(item@),
{
    match item {
        QueryValue::Boolean(inner) => Some(PropertyScalar::Boolean(*inner)),
        QueryValue::Integer(inner) => Some(PropertyScalar::Integer(*inner)),
        QueryValue::Float(inner) => Some(PropertyScalar::Float(*inner)),
        QueryValue::Text(inner) => Some(PropertyScalar::String(inner.clone())),
        _ => None,
    }
}

/// A query value as a stored property, or `None` when it is null.
///
/// A value no property can hold, which is a bound record, a path, or a list of anything but
/// scalars, is refused with [`DiagnosticCode::CypherSemanticError`].
pub fn stored_value(value: &QueryValue, range: SourceRange) -> (made: Result<
    Option<PropertyValue>,
    QueryError,
>)
    ensures
        match made {
            Ok(found) => stored(value@, range) matches Ok(model) && model == view_of(found),
            Err(error) => stored(value@, range) matches Err(wrong) && wrong == error@,
        },
{
    match value {
        QueryValue::Null => Ok(None),
        QueryValue::List(items) => {
            proof {
                list_model(items@);
            }
            let ghost models = views(items@);
            let mut scalars: Vec<PropertyScalar> = Vec::new();
            assert(views(scalars@) =~= Seq::<ScalarModel>::empty());
            let mut at: usize = 0;
            while at < items.len()
                invariant
                    at <= items@.len(),
                    models == views(items@),
                    value@ == QueryModel::List(models),
                    stored_items(models, 0, range, Seq::empty()) == stored_items(
                        models,
                        at as int,
                        range,
                        views(scalars@),
                    ),
                decreases items@.len() - at,
            {
                assert(models[at as int] == items@[at as int]@);
                match scalar_of(&items[at]) {
                    Some(scalar) => {
                        proof {
                            views_push(scalars@, scalar);
                        }
                        scalars.push(scalar);
                    }
                    None => {
                        return Err(
                            semantic(
                                joined(
                                    "a list property holds scalars, and this list holds ",
                                    items[at].kind_name(),
                                ).as_str(),
                                range,
                            ),
                        );
                    }
                }
                at = at + 1;
            }
            Ok(Some(PropertyValue::List(scalars)))
        }
        other => match scalar_of(other) {
            Some(scalar) => Ok(Some(PropertyValue::from_scalar(scalar))),
            None => Err(
                semantic(joined("a property cannot hold ", other.kind_name()).as_str(), range),
            ),
        },
    }
}

fn stored_properties(values: &MapValues, range: SourceRange) -> (made: Result<
    Vec<(PropertyKey, PropertyValue)>,
    QueryError,
>)
    ensures
        match made {
            Ok(found) => stored_map(map_model(values@), 0, range, Seq::empty()) matches Ok(model)
                && model == pairs(found@),
            Err(error) => stored_map(map_model(values@), 0, range, Seq::empty()) matches Err(wrong)
                && wrong == error@,
        },
{
    let ghost models = map_model(values@);
    let mut found: Vec<(PropertyKey, PropertyValue)> = Vec::new();
    assert(pairs(found@) =~= Seq::<(Seq<char>, PropertyModel)>::empty());
    let mut at: usize = 0;
    while at < values.len()
        invariant
            at <= values@.len(),
            models == map_model(values@),
            stored_map(models, 0, range, Seq::empty()) == stored_map(
                models,
                at as int,
                range,
                pairs(found@),
            ),
        decreases values@.len() - at,
    {
        let pair = &values[at];
        assert(models[at as int] == (pair.0@, pair.1@));
        let key = match PropertyKey::new(pair.0.as_str()) {
            Err(error) => {
                return Err(bad_name("a property key", pair.0.as_str(), error, range));
            }
            Ok(key) => key,
        };
        match stored_value(&pair.1, range) {
            Err(error) => {
                return Err(error);
            }
            Ok(None) => {
                let mut message = joined("the property `", pair.0.as_str());
                message.append("` is null, and a stored null is unrepresentable");
                return Err(semantic(message.as_str(), range));
            }
            Ok(Some(value)) => {
                let one = (key, value);
                proof {
                    pairs_push(found@, one);
                }
                found.push(one);
            }
        }
        at = at + 1;
    }
    Ok(found)
}

// -- Ownership ---------------------------------------------------------------------

/// The contribution a query-authored record carries.
pub open spec fn user_entry() -> ContributionModel {
    ContributionModel {
        owner: OwnerModel::User,
        source_unit: SourceUnitId::with_bytes(Seq::new(16, |i: int| 0u8)),
        evidence: Seq::empty(),
    }
}

/// Whether one of the first `count` contributions is the user's.
pub open spec fn user_owned(entries: Seq<ContributionModel>, count: int) -> bool
    decreases count,
{
    count > 0 && (entries[count - 1].owner.kind() == OwnerKind::User || user_owned(
        entries,
        count - 1,
    ))
}

/// The contributions with one of the user's. Every other one stays.
pub open spec fn with_user(entries: Seq<ContributionModel>) -> Seq<ContributionModel> {
    if user_owned(entries, entries.len() as int) {
        entries
    } else {
        entries.push(user_entry())
    }
}

fn user_contribution() -> (entry: Contribution)
    ensures
        entry@ == user_entry(),
{
    let unit = SourceUnitId::query();
    proof {
        unit.is_found();
        unit.length();
        assert(unit@ =~= Seq::new(16, |i: int| 0u8));
    }
    let entry = Contribution { owner: Owner::User, source_unit: unit, evidence: Vec::new() };
    assert(entry@.evidence =~= Seq::<EvidenceModel>::empty());
    entry
}

fn user_contributions() -> (entries: Vec<Contribution>)
    ensures
        views(entries@) == seq![user_entry()],
{
    let mut entries: Vec<Contribution> = Vec::new();
    entries.push(user_contribution());
    assert(views(entries@) =~= seq![user_entry()]);
    entries
}

fn note_user_ownership(entries: &mut Vec<Contribution>)
    ensures
        views(final(entries)@) == with_user(views(old(entries)@)),
{
    let ghost models = views(entries@);
    let mut at: usize = entries.len();
    while at > 0
        invariant
            at <= entries@.len(),
            models == views(entries@),
            models == views(old(entries)@),
            user_owned(models, models.len() as int) == user_owned(models, at as int),
        decreases at,
    {
        assert(models[at - 1] == entries@[at - 1]@);
        if entries[at - 1].owner.kind() == OwnerKind::User {
            return;
        }
        at = at - 1;
    }
    let entry = user_contribution();
    proof {
        views_push(entries@, entry);
    }
    entries.push(entry);
}

// -- Identifiers -------------------------------------------------------------------

/// The identifiers that are minted, one for each place, whether or not they are asked for.
pub type Minted = spec_fn(int) -> Seq<u8>;

/// Whether a node has an identifier with these bytes.
pub open spec fn node_uses(nodes: Seq<NodeModel>, bytes: Seq<u8>) -> bool {
    exists|i: int| 0 <= i < nodes.len() && (#[trigger] nodes[i]).id@ == bytes
}

/// Whether an edge has an identifier with these bytes.
pub open spec fn edge_uses(edges: Seq<EdgeModel>, bytes: Seq<u8>) -> bool {
    exists|i: int| 0 <= i < edges.len() && (#[trigger] edges[i]).id@ == bytes
}

/// The first of the next `left` minted identifiers from `at` on that no node uses.
pub open spec fn unused_by_nodes(
    nodes: Seq<NodeModel>,
    minted: Minted,
    at: int,
    left: nat,
) -> Option<int>
    decreases left,
{
    if left == 0 {
        None
    } else if node_uses(nodes, minted(at)) {
        unused_by_nodes(nodes, minted, at + 1, (left - 1) as nat)
    } else {
        Some(at)
    }
}

/// The first of the next `left` minted identifiers from `at` on that no edge uses.
pub open spec fn unused_by_edges(
    edges: Seq<EdgeModel>,
    minted: Minted,
    at: int,
    left: nat,
) -> Option<int>
    decreases left,
{
    if left == 0 {
        None
    } else if edge_uses(edges, minted(at)) {
        unused_by_edges(edges, minted, at + 1, (left - 1) as nat)
    } else {
        Some(at)
    }
}

/// What is said where as many minted identifiers as can be counted are all in use.
pub open spec fn no_identifier(range: SourceRange) -> QueryErrorModel {
    meaningless("every identifier that was minted is already in use"@, range)
}

/// Whether what is minted goes on from the identifiers so far.
pub open spec fn goes_on(minted: Minted, sofar: Seq<Seq<u8>>) -> bool {
    forall|i: int| 0 <= i < sofar.len() ==> minted(i) == #[trigger] sofar[i]
}

/// How a minter and the identifiers it issued go on.
pub open spec fn issued_on(
    before: Minter,
    after: Minter,
    first: Seq<Seq<u8>>,
    second: Seq<Seq<u8>>,
) -> bool {
    &&& starts_with(second, first)
    &&& forall|start: Minter|
        #[trigger] Minter::issued_all(start, before, first) ==> Minter::issued_all(
            start,
            after,
            second,
        )
}

/// What goes on from a later point goes on from an earlier one.
pub broadcast proof fn goes_on_before(
    minted: Minted,
    first: Seq<Seq<u8>>,
    second: Seq<Seq<u8>>,
)
    requires
        #[trigger] goes_on(minted, second),
        #[trigger] starts_with(second, first),
    ensures
        goes_on(minted, first),
{
    assert forall|i: int| 0 <= i < first.len() implies minted(i) == #[trigger] first[i] by {
        assert(second[i] == first[i]);
    }
}

/// What starts with a list starts with what that starts with.
pub broadcast proof fn starts_chain(
    first: Seq<Seq<u8>>,
    second: Seq<Seq<u8>>,
    third: Seq<Seq<u8>>,
)
    requires
        #[trigger] starts_with(third, second),
        #[trigger] starts_with(second, first),
    ensures
        starts_with(third, first),
{
    assert forall|i: int| 0 <= i < first.len() implies third[i] == #[trigger] first[i] by {
        assert(second[i] == first[i]);
    }
}

/// Issuing goes on through a point in between.
pub proof fn issued_chain(
    a: Minter,
    b: Minter,
    c: Minter,
    first: Seq<Seq<u8>>,
    second: Seq<Seq<u8>>,
    third: Seq<Seq<u8>>,
)
    requires
        issued_on(a, b, first, second),
        issued_on(b, c, second, third),
    ensures
        issued_on(a, c, first, third),
{
    starts_chain(first, second, third);
    assert forall|start: Minter| #[trigger]
        Minter::issued_all(start, a, first) implies Minter::issued_all(start, c, third) by {
        assert(Minter::issued_all(start, b, second));
    }
}

/// Nothing issued is nothing gone on.
pub proof fn issued_still(minter: Minter, minted: Seq<Seq<u8>>)
    ensures
        issued_on(minter, minter, minted, minted),
{
}

/// A minter that issued one more goes on.
pub proof fn issued_step(before: Minter, after: Minter, minted: Seq<Seq<u8>>, bytes: Seq<u8>)
    requires
        Minter::issues(before, after, bytes),
    ensures
        issued_on(before, after, minted, minted.push(bytes)),
{
    assert forall|start: Minter| #[trigger]
        Minter::issued_all(start, before, minted) implies Minter::issued_all(
        start,
        after,
        minted.push(bytes),
    ) by {
        Minter::issued_one_more(start, before, after, minted, bytes);
    }
}

fn node_is_used(graph: &Graph, id: LocalNodeId) -> (answer: bool)
    ensures
        answer == node_uses(graph@.nodes, id@),
{
    let ghost models = graph@.nodes;
    let mut at: usize = 0;
    while at < graph.nodes.len()
        invariant
            at <= graph.nodes@.len(),
            models == graph@.nodes,
            forall|i: int| 0 <= i < at ==> (#[trigger] models[i]).id@ != id@,
        decreases graph.nodes@.len() - at,
    {
        assert(models[at as int] == graph.nodes@[at as int]@);
        if graph.nodes[at].id.same(&id) {
            return true;
        }
        at = at + 1;
    }
    false
}

fn edge_is_used(graph: &Graph, id: LocalEdgeId) -> (answer: bool)
    ensures
        answer == edge_uses(graph@.edges, id@),
{
    let ghost models = graph@.edges;
    let mut at: usize = 0;
    while at < graph.edges.len()
        invariant
            at <= graph.edges@.len(),
            models == graph@.edges,
            forall|i: int| 0 <= i < at ==> (#[trigger] models[i]).id@ != id@,
        decreases graph.edges@.len() - at,
    {
        assert(models[at as int] == graph.edges@[at as int]@);
        if graph.edges[at].id.same(&id) {
            return true;
        }
        at = at + 1;
    }
    false
}

/// A minted node identifier no record already uses, and what was minted on the way.
///
/// `None` only where as many identifiers as can be counted were all in use.
fn fresh_node_id(graph: &Graph, minter: &mut Minter, Ghost(sofar): Ghost<Seq<Seq<u8>>>) -> (made: (
    Option<LocalNodeId>,
    Ghost<Seq<Seq<u8>>>,
))
    ensures
        issued_on(*old(minter), *final(minter), sofar, made.1@),
        match made.0 {
            Some(id) => forall|minted: Minted| #[trigger]
                goes_on(minted, made.1@) ==> unused_by_nodes(
                    graph@.nodes,
                    minted,
                    sofar.len() as int,
                    u64::MAX as nat,
                ) == Some(made.1@.len() - 1) && LocalNodeId::with_bytes(
                    minted(made.1@.len() - 1),
                ) == id,
            None => made.1@.len() == sofar.len() + u64::MAX && forall|minted: Minted| #[trigger]
                goes_on(minted, made.1@) ==> unused_by_nodes(
                    graph@.nodes,
                    minted,
                    sofar.len() as int,
                    u64::MAX as nat,
                ) is None,
        },
{
    broadcast use {goes_on_before, starts_chain};

    let ghost mut minted = sofar;
    let ghost start = *minter;
    let ghost nodes = graph@.nodes;
    proof {
        issued_still(start, sofar);
    }
    let mut tries: u64 = 0;
    while tries < u64::MAX
        invariant
            start == *old(minter),
            nodes == graph@.nodes,
            minted.len() == sofar.len() + tries,
            issued_on(start, *minter, sofar, minted),
            forall|i: int| sofar.len() <= i < minted.len() ==> node_uses(nodes, #[trigger] minted[i]),
        decreases u64::MAX - tries,
    {
        let ghost before = *minter;
        let ghost earlier = minted;
        let candidate = minter.node();
        proof {
            issued_step(before, *minter, earlier, candidate@);
            minted = earlier.push(candidate@);
            issued_chain(start, before, *minter, sofar, earlier, minted);
        }
        if !node_is_used(graph, candidate) {
            proof {
                candidate.is_found();
                assert forall|more: Minted| #[trigger]
                    goes_on(more, minted) implies unused_by_nodes(
                    nodes,
                    more,
                    sofar.len() as int,
                    u64::MAX as nat,
                ) == Some(minted.len() - 1) && more(minted.len() - 1) == candidate@ by {
                    assert(minted[minted.len() - 1] == candidate@);
                    first_unused_node(
                        nodes,
                        more,
                        sofar.len() as int,
                        minted.len() - 1,
                        u64::MAX as nat,
                        minted,
                    );
                }
            }
            return (Some(candidate), Ghost(minted));
        }
        tries = tries + 1;
    }
    proof {
        assert forall|more: Minted| #[trigger] goes_on(more, minted) implies unused_by_nodes(
            nodes,
            more,
            sofar.len() as int,
            u64::MAX as nat,
        ) is None by {
            none_unused_node(nodes, more, sofar.len() as int, u64::MAX as nat, minted);
        }
    }
    (None, Ghost(minted))
}

proof fn first_unused_node(
    nodes: Seq<NodeModel>,
    more: Minted,
    at: int,
    place: int,
    left: nat,
    minted: Seq<Seq<u8>>,
)
    requires
        0 <= at <= place < at + left,
        place < minted.len(),
        goes_on(more, minted),
        !node_uses(nodes, minted[place]),
        forall|i: int| at <= i < place ==> node_uses(nodes, #[trigger] minted[i]),
    ensures
        unused_by_nodes(nodes, more, at, left) == Some(place),
    decreases place - at,
{
    assert(more(at) == minted[at]);
    if at < place {
        assert(node_uses(nodes, minted[at]));
        first_unused_node(nodes, more, at + 1, place, (left - 1) as nat, minted);
    }
}

proof fn none_unused_node(
    nodes: Seq<NodeModel>,
    more: Minted,
    at: int,
    left: nat,
    minted: Seq<Seq<u8>>,
)
    requires
        0 <= at,
        at + left == minted.len(),
        goes_on(more, minted),
        forall|i: int| at <= i < minted.len() ==> node_uses(nodes, #[trigger] minted[i]),
    ensures
        unused_by_nodes(nodes, more, at, left) is None,
    decreases left,
{
    if left > 0 {
        assert(more(at) == minted[at]);
        assert(node_uses(nodes, minted[at]));
        none_unused_node(nodes, more, at + 1, (left - 1) as nat, minted);
    }
}

proof fn first_unused_edge(
    edges: Seq<EdgeModel>,
    more: Minted,
    at: int,
    place: int,
    left: nat,
    minted: Seq<Seq<u8>>,
)
    requires
        0 <= at <= place < at + left,
        place < minted.len(),
        goes_on(more, minted),
        !edge_uses(edges, minted[place]),
        forall|i: int| at <= i < place ==> edge_uses(edges, #[trigger] minted[i]),
    ensures
        unused_by_edges(edges, more, at, left) == Some(place),
    decreases place - at,
{
    assert(more(at) == minted[at]);
    if at < place {
        assert(edge_uses(edges, minted[at]));
        first_unused_edge(edges, more, at + 1, place, (left - 1) as nat, minted);
    }
}

proof fn none_unused_edge(
    edges: Seq<EdgeModel>,
    more: Minted,
    at: int,
    left: nat,
    minted: Seq<Seq<u8>>,
)
    requires
        0 <= at,
        at + left == minted.len(),
        goes_on(more, minted),
        forall|i: int| at <= i < minted.len() ==> edge_uses(edges, #[trigger] minted[i]),
    ensures
        unused_by_edges(edges, more, at, left) is None,
    decreases left,
{
    if left > 0 {
        assert(more(at) == minted[at]);
        assert(edge_uses(edges, minted[at]));
        none_unused_edge(edges, more, at + 1, (left - 1) as nat, minted);
    }
}

/// A minted edge identifier no record already uses, and what was minted on the way.
///
/// `None` only where as many identifiers as can be counted were all in use.
fn fresh_edge_id(graph: &Graph, minter: &mut Minter, Ghost(sofar): Ghost<Seq<Seq<u8>>>) -> (made: (
    Option<LocalEdgeId>,
    Ghost<Seq<Seq<u8>>>,
))
    ensures
        issued_on(*old(minter), *final(minter), sofar, made.1@),
        match made.0 {
            Some(id) => forall|minted: Minted| #[trigger]
                goes_on(minted, made.1@) ==> unused_by_edges(
                    graph@.edges,
                    minted,
                    sofar.len() as int,
                    u64::MAX as nat,
                ) == Some(made.1@.len() - 1) && LocalEdgeId::with_bytes(
                    minted(made.1@.len() - 1),
                ) == id,
            None => made.1@.len() == sofar.len() + u64::MAX && forall|minted: Minted| #[trigger]
                goes_on(minted, made.1@) ==> unused_by_edges(
                    graph@.edges,
                    minted,
                    sofar.len() as int,
                    u64::MAX as nat,
                ) is None,
        },
{
    broadcast use {goes_on_before, starts_chain};

    let ghost mut minted = sofar;
    let ghost start = *minter;
    let ghost edges = graph@.edges;
    proof {
        issued_still(start, sofar);
    }
    let mut tries: u64 = 0;
    while tries < u64::MAX
        invariant
            start == *old(minter),
            edges == graph@.edges,
            minted.len() == sofar.len() + tries,
            issued_on(start, *minter, sofar, minted),
            forall|i: int| sofar.len() <= i < minted.len() ==> edge_uses(edges, #[trigger] minted[i]),
        decreases u64::MAX - tries,
    {
        let ghost before = *minter;
        let ghost earlier = minted;
        let candidate = minter.edge();
        proof {
            issued_step(before, *minter, earlier, candidate@);
            minted = earlier.push(candidate@);
            issued_chain(start, before, *minter, sofar, earlier, minted);
        }
        if !edge_is_used(graph, candidate) {
            proof {
                candidate.is_found();
                assert forall|more: Minted| #[trigger]
                    goes_on(more, minted) implies unused_by_edges(
                    edges,
                    more,
                    sofar.len() as int,
                    u64::MAX as nat,
                ) == Some(minted.len() - 1) && more(minted.len() - 1) == candidate@ by {
                    assert(minted[minted.len() - 1] == candidate@);
                    first_unused_edge(
                        edges,
                        more,
                        sofar.len() as int,
                        minted.len() - 1,
                        u64::MAX as nat,
                        minted,
                    );
                }
            }
            return (Some(candidate), Ghost(minted));
        }
        tries = tries + 1;
    }
    proof {
        assert forall|more: Minted| #[trigger] goes_on(more, minted) implies unused_by_edges(
            edges,
            more,
            sofar.len() as int,
            u64::MAX as nat,
        ) is None by {
            none_unused_edge(edges, more, sofar.len() as int, u64::MAX as nat, minted);
        }
    }
    (None, Ghost(minted))
}

// -- Creating ----------------------------------------------------------------------

/// What writing has come to: the graph, the counts, what the row has bound, and how many
/// of the minted identifiers were taken.
pub struct Written {
    /// The graph.
    pub graph: GraphModel,
    /// The counts.
    pub summary: WriteSummary,
    /// What the row has bound.
    pub scope: Scope,
    /// How many minted identifiers were taken.
    pub used: int,
}

/// What a created record was, or why it was refused.
pub type Created<T> = Result<T, QueryErrorModel>;

/// The labels that the names from `at` on make, behind those before them.
pub open spec fn labels_made(
    names: Seq<String>,
    at: int,
    range: SourceRange,
    before: Seq<Seq<char>>,
) -> Created<Seq<Seq<char>>>
    decreases names.len() - at,
{
    if at < 0 || at >= names.len() {
        Ok(before)
    } else {
        match name_fault(names[at]@) {
            Some(error) => Err(invalid_name("a label"@, names[at]@, error, range)),
            None => labels_made(names, at + 1, range, with_new(before, names[at]@)),
        }
    }
}

/// What a variable is bound to.
pub open spec fn bound_to(scope: Scope, variable: Option<String>) -> Option<QueryModel> {
    match variable {
        None => None,
        Some(name) => found_in(scope, name@),
    }
}

/// A scope in which a variable, where there is one, is bound to a value.
pub open spec fn binding(scope: Scope, variable: Option<String>, value: QueryModel) -> Scope {
    match variable {
        None => scope,
        Some(name) => scope.insert(name@, value),
    }
}

/// The node that an already bound variable names in a pattern to create.
pub open spec fn node_reused(
    existing: QueryModel,
    pattern: NodePattern,
    values: Seq<(Seq<char>, QueryModel)>,
    range: SourceRange,
) -> Created<LocalNodeId> {
    let name = match pattern.variable {
        Some(name) => name@,
        None => Seq::empty(),
    };
    if pattern.labels@.len() > 0 || values.len() > 0 {
        Err(
            meaningless("`"@ + name + "` is already bound, so it cannot be created again"@, range),
        )
    } else {
        match existing {
            QueryModel::Node(handle) => if handle.source == 0 {
                Ok(handle.id)
            } else {
                Err(read_only("the bound node"@, range))
            },
            _ => Err(
                meaningless(
                    "`"@ + name + "` is bound to "@ + existing.kind() + ", which is not a node"@,
                    range,
                ),
            ),
        }
    }
}

/// What creating a node of a pattern comes to: a bound one is taken, any other is made.
pub open spec fn node_created(
    state: Written,
    pattern: NodePattern,
    values: Seq<(Seq<char>, QueryModel)>,
    range: SourceRange,
    minted: Minted,
) -> (Written, Created<LocalNodeId>) {
    match bound_to(state.scope, pattern.variable) {
        Some(existing) => (state, node_reused(existing, pattern, values, range)),
        None => if pattern.labels@.len() == 0 {
            (
                state,
                Err(
                    meaningless(
                        "a created node must carry at least one label, because NostDB requires every Node to have one"@,
                        range,
                    ),
                ),
            )
        } else {
            match labels_made(pattern.labels@, 0, range, Seq::empty()) {
                Err(wrong) => (state, Err(wrong)),
                Ok(labels) => match unused_by_nodes(
                    state.graph.nodes,
                    minted,
                    state.used,
                    u64::MAX as nat,
                ) {
                    None => (
                        Written { used: state.used + u64::MAX, ..state },
                        Err(no_identifier(range)),
                    ),
                    Some(at) => {
                        let id = LocalNodeId::with_bytes(minted(at));
                        match stored_map(values, 0, range, Seq::empty()) {
                            Err(wrong) => (Written { used: at + 1, ..state }, Err(wrong)),
                            Ok(properties) => (
                                Written {
                                    graph: GraphModel {
                                        nodes: state.graph.nodes.push(
                                            NodeModel {
                                                id,
                                                labels,
                                                properties,
                                                contributions: seq![user_entry()],
                                            },
                                        ),
                                        ..state.graph
                                    },
                                    summary: WriteSummary {
                                        nodes_created: one_more(state.summary.nodes_created),
                                        ..state.summary
                                    },
                                    scope: binding(
                                        state.scope,
                                        pattern.variable,
                                        QueryModel::Node(Scoped { source: 0, id }),
                                    ),
                                    used: at + 1,
                                },
                                Ok(id),
                            ),
                        }
                    },
                },
            }
        },
    }
}

/// What creating a relationship of a pattern comes to.
pub open spec fn edge_created(
    state: Written,
    pattern: RelationshipPattern,
    from: LocalNodeId,
    to: LocalNodeId,
    values: Seq<(Seq<char>, QueryModel)>,
    range: SourceRange,
    minted: Minted,
) -> (Written, Created<LocalEdgeId>) {
    if pattern.types@.len() != 1 {
        (
            state,
            Err(meaningless("a created relationship names exactly one relation type"@, range)),
        )
    } else {
        match name_fault(pattern.types@[0]@) {
            Some(error) => (
                state,
                Err(invalid_name("a relation type"@, pattern.types@[0]@, error, range)),
            ),
            None => match unused_by_edges(
                    state.graph.edges,
                    minted,
                    state.used,
                    u64::MAX as nat,
                ) {
                None => (
                    Written { used: state.used + u64::MAX, ..state },
                    Err(no_identifier(range)),
                ),
                Some(at) => {
                    let id = LocalEdgeId::with_bytes(minted(at));
                    match stored_map(values, 0, range, Seq::empty()) {
                        Err(wrong) => (Written { used: at + 1, ..state }, Err(wrong)),
                        Ok(properties) => (
                            Written {
                                graph: GraphModel {
                                    edges: state.graph.edges.push(
                                        EdgeModel {
                                            id,
                                            source: ReferenceModel::Local(from),
                                            target: ReferenceModel::Local(to),
                                            relation: pattern.types@[0]@,
                                            properties,
                                            contributions: seq![user_entry()],
                                        },
                                    ),
                                    ..state.graph
                                },
                                summary: WriteSummary {
                                    edges_created: one_more(state.summary.edges_created),
                                    ..state.summary
                                },
                                scope: binding(
                                    state.scope,
                                    pattern.variable,
                                    QueryModel::Relationship(Scoped { source: 0, id }),
                                ),
                                used: at + 1,
                            },
                            Ok(id),
                        ),
                    }
                },
            },
        }
    }
}

/// What is said of a created relationship without a direction.
pub open spec fn undirected(range: SourceRange) -> QueryErrorModel {
    meaningless(
        "a created relationship must be directed, written `->` or `<-`, because an Edge has a source and a target"@,
        range,
    )
}

/// What creating the steps of a pattern from `at` on comes to, behind a node.
pub open spec fn steps_created(
    state: Written,
    previous: LocalNodeId,
    steps: Seq<(RelationshipPattern, NodePattern)>,
    values: PatternModel,
    at: int,
    range: SourceRange,
    minted: Minted,
) -> (Written, Created<()>)
    decreases steps.len() - at,
{
    if at < 0 || at >= steps.len() {
        (state, Ok(()))
    } else {
        let relationship = steps[at].0;
        match node_created(state, steps[at].1, values.steps[at].1, range, minted) {
            (next, Err(wrong)) => (next, Err(wrong)),
            (next, Ok(target)) => if relationship.direction == Direction::Either {
                (next, Err(undirected(range)))
            } else {
                let from = if relationship.direction == Direction::Outgoing {
                    previous
                } else {
                    target
                };
                let to = if relationship.direction == Direction::Outgoing {
                    target
                } else {
                    previous
                };
                match edge_created(next, relationship, from, to, values.steps[at].0, range, minted) {
                    (last, Err(wrong)) => (last, Err(wrong)),
                    (last, Ok(_)) => steps_created(
                        last,
                        target,
                        steps,
                        values,
                        at + 1,
                        range,
                        minted,
                    ),
                }
            },
        }
    }
}

/// What creating a pattern comes to.
#[verifier::opaque]
pub open spec fn pattern_created(
    state: Written,
    pattern: Pattern,
    values: PatternModel,
    range: SourceRange,
    minted: Minted,
) -> (Written, Created<()>) {
    match node_created(state, pattern.start, values.start, range, minted) {
        (next, Err(wrong)) => (next, Err(wrong)),
        (next, Ok(first)) => steps_created(
            next,
            first,
            pattern.steps@,
            values,
            0,
            range,
            minted,
        ),
    }
}

/// The model of what creating came to.
pub open spec fn made_model<T>(made: Result<T, QueryError>) -> Created<T> {
    match made {
        Ok(found) => Ok(found),
        Err(error) => Err(error@),
    }
}

/// What writing has come to, from its parts.
pub open spec fn written(
    graph: Graph,
    summary: WriteSummary,
    bindings: Bindings,
    minted: Seq<Seq<u8>>,
) -> Written {
    Written { graph: graph@, summary, scope: bindings@, used: minted.len() as int }
}

fn make_labels(names: &Vec<String>, range: SourceRange) -> (made: Result<Vec<Label>, QueryError>)
    ensures
        match made {
            Ok(labels) => labels_made(names@, 0, range, Seq::empty()) matches Ok(model) && model
                == views(labels@),
            Err(error) => labels_made(names@, 0, range, Seq::empty()) matches Err(wrong) && wrong
                == error@,
        },
{
    let mut labels: Vec<Label> = Vec::new();
    assert(views(labels@) =~= Seq::<Seq<char>>::empty());
    let mut at: usize = 0;
    while at < names.len()
        invariant
            at <= names@.len(),
            labels_made(names@, 0, range, Seq::empty()) == labels_made(
                names@,
                at as int,
                range,
                views(labels@),
            ),
        decreases names@.len() - at,
    {
        match Label::new(names[at].as_str()) {
            Err(error) => {
                return Err(bad_name("a label", names[at].as_str(), error, range));
            }
            Ok(label) => {
                if !holds_label(&labels, &label) {
                    proof {
                        views_push(labels@, label);
                    }
                    labels.push(label);
                }
            }
        }
        at = at + 1;
    }
    Ok(labels)
}

fn holds_label(labels: &Vec<Label>, label: &Label) -> (answer: bool)
    ensures
        answer == views(labels@).contains(label@),
{
    let mut at: usize = 0;
    while at < labels.len()
        invariant
            at <= labels@.len(),
            forall|i: int| 0 <= i < at ==> (#[trigger] views(labels@)[i]) != label@,
        decreases labels@.len() - at,
    {
        assert(views(labels@)[at as int] == labels@[at as int]@);
        if labels[at].same(label) {
            return true;
        }
        at = at + 1;
    }
    false
}

fn reuse_node(
    existing: &QueryValue,
    name: &str,
    pattern: &NodePattern,
    values: &MapValues,
    range: SourceRange,
) -> (made: Result<LocalNodeId, QueryError>)
    requires
        pattern.variable matches Some(variable) && variable@ == name@,
    ensures
        made_model(made) == node_reused(existing@, *pattern, map_model(values@), range),
{
    if pattern.labels.len() > 0 || values.len() > 0 {
        let mut message = joined("`", name);
        message.append("` is already bound, so it cannot be created again");
        return Err(semantic(message.as_str(), range));
    }
    match existing {
        QueryValue::Node(handle) => {
            if handle.source == 0 {
                Ok(handle.id)
            } else {
                Err(refuse_linked("the bound node", range))
            }
        }
        other => {
            let mut message = joined("`", name);
            message.append("` is bound to ");
            message.append(other.kind_name());
            message.append(", which is not a node");
            Err(semantic(message.as_str(), range))
        }
    }
}

/// Creates one node, or finds the identifier a bound variable already names.
fn create_node(
    graph: &mut Graph,
    minter: &mut Minter,
    summary: &mut WriteSummary,
    bindings: &mut Bindings,
    pattern: &NodePattern,
    values: &MapValues,
    range: SourceRange,
    Ghost(sofar): Ghost<Seq<Seq<u8>>>,
) -> (made: (Result<LocalNodeId, QueryError>, Ghost<Seq<Seq<u8>>>))
    ensures
        issued_on(*old(minter), *final(minter), sofar, made.1@),
        forall|minted: Minted| #[trigger]
            goes_on(minted, made.1@) ==> node_created(
                written(*old(graph), *old(summary), *old(bindings), sofar),
                *pattern,
                map_model(values@),
                range,
                minted,
            ) == (
                written(*final(graph), *final(summary), *final(bindings), made.1@),
                made_model(made.0),
            ),
{
    proof {
        issued_still(*minter, sofar);
    }
    match &pattern.variable {
        Some(name) => match bindings.get(name.as_str()) {
            Some(existing) => {
                let made = reuse_node(existing, name.as_str(), pattern, values, range);
                return (made, Ghost(sofar));
            }
            None => {}
        },
        None => {}
    }
    if pattern.labels.len() == 0 {
        return (
            Err(
                semantic(
                    "a created node must carry at least one label, because NostDB requires every Node to have one",
                    range,
                ),
            ),
            Ghost(sofar),
        );
    }
    let labels = match make_labels(&pattern.labels, range) {
        Err(error) => {
            return (Err(error), Ghost(sofar));
        }
        Ok(labels) => labels,
    };
    let (fresh, Ghost(now)) = fresh_node_id(graph, minter, Ghost(sofar));
    let id = match fresh {
        None => {
            return (
                Err(semantic("every identifier that was minted is already in use", range)),
                Ghost(now),
            );
        }
        Some(id) => id,
    };
    let properties = match stored_properties(values, range) {
        Err(error) => {
            return (Err(error), Ghost(now));
        }
        Ok(properties) => properties,
    };
    let node = Node { id, labels, properties, contributions: user_contributions() };
    proof {
        views_push(graph.nodes@, node);
    }
    graph.nodes.push(node);
    summary.nodes_created = counted(summary.nodes_created);
    match &pattern.variable {
        Some(name) => {
            bindings.insert(name.clone(), QueryValue::Node(Scoped::root(id)));
        }
        None => {}
    }
    (Ok(id), Ghost(now))
}

/// Creates one relationship.
fn create_edge(
    graph: &mut Graph,
    minter: &mut Minter,
    summary: &mut WriteSummary,
    bindings: &mut Bindings,
    pattern: &RelationshipPattern,
    from: LocalNodeId,
    to: LocalNodeId,
    values: &MapValues,
    range: SourceRange,
    Ghost(sofar): Ghost<Seq<Seq<u8>>>,
) -> (made: (Result<LocalEdgeId, QueryError>, Ghost<Seq<Seq<u8>>>))
    ensures
        issued_on(*old(minter), *final(minter), sofar, made.1@),
        forall|minted: Minted| #[trigger]
            goes_on(minted, made.1@) ==> edge_created(
                written(*old(graph), *old(summary), *old(bindings), sofar),
                *pattern,
                from,
                to,
                map_model(values@),
                range,
                minted,
            ) == (
                written(*final(graph), *final(summary), *final(bindings), made.1@),
                made_model(made.0),
            ),
{
    proof {
        issued_still(*minter, sofar);
    }
    if pattern.types.len() != 1 {
        return (
            Err(semantic("a created relationship names exactly one relation type", range)),
            Ghost(sofar),
        );
    }
    let relation = match RelationName::new(pattern.types[0].as_str()) {
        Err(error) => {
            return (
                Err(bad_name("a relation type", pattern.types[0].as_str(), error, range)),
                Ghost(sofar),
            );
        }
        Ok(relation) => relation,
    };
    let (fresh, Ghost(now)) = fresh_edge_id(graph, minter, Ghost(sofar));
    let id = match fresh {
        None => {
            return (
                Err(semantic("every identifier that was minted is already in use", range)),
                Ghost(now),
            );
        }
        Some(id) => id,
    };
    let properties = match stored_properties(values, range) {
        Err(error) => {
            return (Err(error), Ghost(now));
        }
        Ok(properties) => properties,
    };
    let edge = Edge {
        id,
        source: NodeReference::Local(from),
        target: NodeReference::Local(to),
        relation,
        properties,
        contributions: user_contributions(),
    };
    proof {
        views_push(graph.edges@, edge);
    }
    graph.edges.push(edge);
    summary.edges_created = counted(summary.edges_created);
    match &pattern.variable {
        Some(name) => {
            bindings.insert(name.clone(), QueryValue::Relationship(Scoped::root(id)));
        }
        None => {}
    }
    (Ok(id), Ghost(now))
}

/// Creates every node and relationship of a pattern that is not already bound.
pub(crate) fn create_pattern(
    graph: &mut Graph,
    minter: &mut Minter,
    summary: &mut WriteSummary,
    bindings: &mut Bindings,
    pattern: &Pattern,
    values: &PatternValues,
    range: SourceRange,
    Ghost(sofar): Ghost<Seq<Seq<u8>>>,
) -> (made: (Result<(), QueryError>, Ghost<Seq<Seq<u8>>>))
    requires
        pattern.steps@.len() <= values.steps@.len(),
    ensures
        issued_on(*old(minter), *final(minter), sofar, made.1@),
        forall|minted: Minted| #[trigger]
            goes_on(minted, made.1@) ==> pattern_created(
                written(*old(graph), *old(summary), *old(bindings), sofar),
                *pattern,
                values@,
                range,
                minted,
            ) == (
                written(*final(graph), *final(summary), *final(bindings), made.1@),
                made_model(made.0),
            ),
{
    broadcast use {goes_on_before, starts_chain};

    proof {
        reveal(pattern_created);
    }
    let ghost start = written(*graph, *summary, *bindings, sofar);
    let ghost issuer = *minter;
    let (first, Ghost(now)) = create_node(
        graph,
        minter,
        summary,
        bindings,
        &pattern.start,
        &values.start,
        range,
        Ghost(sofar),
    );
    let mut previous = match first {
        Err(error) => {
            return (Err(error), Ghost(now));
        }
        Ok(id) => id,
    };
    let ghost mut taken = now;
    let mut at: usize = 0;
    while at < pattern.steps.len()
        invariant
            at <= pattern.steps@.len() <= values.steps@.len(),
            issuer == *old(minter),
            start == written(*old(graph), *old(summary), *old(bindings), sofar),
            issued_on(issuer, *minter, sofar, taken),
            forall|minted: Minted| #[trigger]
                goes_on(minted, taken) ==> pattern_created(
                    start,
                    *pattern,
                    values@,
                    range,
                    minted,
                ) == steps_created(
                    written(*graph, *summary, *bindings, taken),
                    previous,
                    pattern.steps@,
                    values@,
                    at as int,
                    range,
                    minted,
                ),
        decreases pattern.steps@.len() - at,
    {
        broadcast use {goes_on_before, starts_chain};

        assert(values@.steps[at as int] == (
            map_model(values.steps@[at as int].0@),
            map_model(values.steps@[at as int].1@),
        ));
        let relationship = &pattern.steps[at].0;
        let ghost before = *minter;
        let ghost earlier = taken;
        let (reached, Ghost(next)) = create_node(
            graph,
            minter,
            summary,
            bindings,
            &pattern.steps[at].1,
            &values.steps[at].1,
            range,
            Ghost(taken),
        );
        proof {
            issued_chain(issuer, before, *minter, sofar, earlier, next);
        }
        let target = match reached {
            Err(error) => {
                return (Err(error), Ghost(next));
            }
            Ok(target) => target,
        };
        let (from, to) = match relationship.direction {
            Direction::Outgoing => (previous, target),
            Direction::Incoming => (target, previous),
            Direction::Either => {
                return (
                    Err(
                        semantic(
                            "a created relationship must be directed, written `->` or `<-`, because an Edge has a source and a target",
                            range,
                        ),
                    ),
                    Ghost(next),
                );
            }
        };
        let ghost middle = *minter;
        let (joining, Ghost(last)) = create_edge(
            graph,
            minter,
            summary,
            bindings,
            relationship,
            from,
            to,
            &values.steps[at].0,
            range,
            Ghost(next),
        );
        proof {
            issued_chain(issuer, middle, *minter, sofar, next, last);
        }
        match joining {
            Err(error) => {
                return (Err(error), Ghost(last));
            }
            Ok(_) => {}
        }
        proof {
            taken = last;
        }
        previous = target;
        at = at + 1;
    }
    (Ok(()), Ghost(taken))
}

// -- Changing ----------------------------------------------------------------------

/// A change to a record that is counted.
#[derive(Clone, Copy, Debug, PartialEq, Eq, Structural)]
pub enum Change {
    /// A property was set.
    PropertySet,
    /// A property was removed.
    PropertyRemoved,
    /// A label was added.
    LabelAdded,
    /// A label was removed.
    LabelRemoved,
}

/// The counts after a change, if there was one.
pub open spec fn counted_change(summary: WriteSummary, change: Option<Change>) -> WriteSummary {
    match change {
        None => summary,
        Some(Change::PropertySet) => WriteSummary {
            properties_set: one_more(summary.properties_set),
            ..summary
        },
        Some(Change::PropertyRemoved) => WriteSummary {
            properties_removed: one_more(summary.properties_removed),
            ..summary
        },
        Some(Change::LabelAdded) => WriteSummary {
            labels_added: one_more(summary.labels_added),
            ..summary
        },
        Some(Change::LabelRemoved) => WriteSummary {
            labels_removed: one_more(summary.labels_removed),
            ..summary
        },
    }
}

/// The contributions of a record after a change, if there was one.
pub open spec fn owned_after(change: Option<Change>, entries: Seq<ContributionModel>) -> Seq<
    ContributionModel,
> {
    if change is Some {
        with_user(entries)
    } else {
        entries
    }
}

/// Counts a change and marks the record user-owned, where anything did change.
///
/// Nothing is recorded for a write that changed nothing, so that an empty summary means an
/// unchanged graph.
fn record(summary: &mut WriteSummary, change: Option<Change>, entries: &mut Vec<Contribution>)
    ensures
        *final(summary) == counted_change(*old(summary), change),
        views(final(entries)@) == owned_after(change, views(old(entries)@)),
{
    match change {
        None => {}
        Some(kind) => {
            note_user_ownership(entries);
            match kind {
                Change::PropertySet => {
                    summary.properties_set = counted(summary.properties_set);
                }
                Change::PropertyRemoved => {
                    summary.properties_removed = counted(summary.properties_removed);
                }
                Change::LabelAdded => {
                    summary.labels_added = counted(summary.labels_added);
                }
                Change::LabelRemoved => {
                    summary.labels_removed = counted(summary.labels_removed);
                }
            }
        }
    }
}

/// The first `count` properties without those of a key.
pub open spec fn without_key(
    properties: Seq<(Seq<char>, PropertyModel)>,
    key: Seq<char>,
    count: int,
) -> Seq<(Seq<char>, PropertyModel)>
    decreases count,
{
    if count <= 0 {
        Seq::empty()
    } else if properties[count - 1].0 == key {
        without_key(properties, key, count - 1)
    } else {
        without_key(properties, key, count - 1).push(properties[count - 1])
    }
}

/// The properties after one is set, or removed where there is no value, and what changed.
pub open spec fn property_change(
    properties: Seq<(Seq<char>, PropertyModel)>,
    key: Seq<char>,
    value: Option<PropertyModel>,
) -> (Seq<(Seq<char>, PropertyModel)>, Option<Change>) {
    match value {
        None => {
            let after = without_key(properties, key, properties.len() as int);
            (
                after,
                if after.len() != properties.len() {
                    Some(Change::PropertyRemoved)
                } else {
                    None
                },
            )
        },
        Some(found) => (
            match property_at(properties, key, 0) {
                Some(at) => properties.update(at, (key, found)),
                None => properties.push((key, found)),
            },
            Some(Change::PropertySet),
        ),
    }
}

fn change_property(
    properties: &mut Vec<(PropertyKey, PropertyValue)>,
    key: PropertyKey,
    value: Option<PropertyValue>,
) -> (change: Option<Change>)
    ensures
        (pairs(final(properties)@), change) == property_change(
            pairs(old(properties)@),
            key@,
            view_of(value),
        ),
{
    let ghost models = pairs(properties@);
    match value {
        None => {
            let total: usize = properties.len();
            let mut kept: Vec<(PropertyKey, PropertyValue)> = Vec::new();
            assert(pairs(kept@) =~= Seq::<(Seq<char>, PropertyModel)>::empty());
            let mut at: usize = 0;
            while at < properties.len()
                invariant
                    at <= properties@.len(),
                    models == pairs(properties@),
                    pairs(kept@) == without_key(models, key@, at as int),
                decreases properties@.len() - at,
            {
                assert(models[at as int] == (properties@[at as int].0@, properties@[at as int].1@));
                if !properties[at].0.same(&key) {
                    let pair = (properties[at].0.clone(), properties[at].1.clone());
                    proof {
                        pairs_push(kept@, pair);
                    }
                    kept.push(pair);
                }
                at = at + 1;
            }
            assert(pairs(kept@).len() == kept@.len());
            let change = if kept.len() != total {
                Some(Change::PropertyRemoved)
            } else {
                None
            };
            *properties = kept;
            change
        }
        Some(found) => {
            match find_property(properties, key.as_str()) {
                Some(at) => {
                    let pair = (key, found);
                    properties.set(at, pair);
                    assert(pairs(properties@) =~= models.update(at as int, (pair.0@, pair.1@)));
                }
                None => {
                    let pair = (key, found);
                    proof {
                        pairs_push(properties@, pair);
                    }
                    properties.push(pair);
                }
            }
            Some(Change::PropertySet)
        }
    }
}

/// The first `count` labels without one.
pub open spec fn without_label(labels: Seq<Seq<char>>, label: Seq<char>, count: int) -> Seq<
    Seq<char>,
>
    decreases count,
{
    if count <= 0 {
        Seq::empty()
    } else if labels[count - 1] == label {
        without_label(labels, label, count - 1)
    } else {
        without_label(labels, label, count - 1).push(labels[count - 1])
    }
}

/// The labels after one is removed, and what changed.
pub open spec fn label_removal(labels: Seq<Seq<char>>, label: Seq<char>) -> (
    Seq<Seq<char>>,
    Option<Change>,
) {
    let after = without_label(labels, label, labels.len() as int);
    (
        after,
        if after.len() != labels.len() {
            Some(Change::LabelRemoved)
        } else {
            None
        },
    )
}

/// The labels after one is added, and what changed.
pub open spec fn label_addition(labels: Seq<Seq<char>>, label: Seq<char>) -> (
    Seq<Seq<char>>,
    Option<Change>,
) {
    if labels.contains(label) {
        (labels, None)
    } else {
        (labels.push(label), Some(Change::LabelAdded))
    }
}

fn remove_label(labels: &mut Vec<Label>, label: &Label) -> (change: Option<Change>)
    ensures
        (views(final(labels)@), change) == label_removal(views(old(labels)@), label@),
{
    let ghost models = views(labels@);
    let total: usize = labels.len();
    let mut kept: Vec<Label> = Vec::new();
    assert(views(kept@) =~= Seq::<Seq<char>>::empty());
    let mut at: usize = 0;
    while at < labels.len()
        invariant
            at <= labels@.len(),
            models == views(labels@),
            views(kept@) == without_label(models, label@, at as int),
        decreases labels@.len() - at,
    {
        assert(models[at as int] == labels@[at as int]@);
        if !labels[at].same(label) {
            let one = labels[at].clone();
            proof {
                views_push(kept@, one);
            }
            kept.push(one);
        }
        at = at + 1;
    }
    assert(views(kept@).len() == kept@.len());
    let change = if kept.len() != total {
        Some(Change::LabelRemoved)
    } else {
        None
    };
    *labels = kept;
    change
}

fn add_label(labels: &mut Vec<Label>, label: Label) -> (change: Option<Change>)
    ensures
        (views(final(labels)@), change) == label_addition(views(old(labels)@), label@),
{
    if holds_label(labels, &label) {
        None
    } else {
        proof {
            views_push(labels@, label);
        }
        labels.push(label);
        Some(Change::LabelAdded)
    }
}

/// A record of the graph, by its place.
pub enum Place {
    /// A node.
    Node(int),
    /// An edge.
    Edge(int),
}

/// Where a record stands.
#[derive(Clone, Copy, Debug)]
enum Found {
    Node(usize),
    Edge(usize),
}

impl View for Found {
    type V = Place;

    closed spec fn view(&self) -> Place {
        match *self {
            Found::Node(at) => Place::Node(at as int),
            Found::Edge(at) => Place::Edge(at as int),
        }
    }
}

/// Where the record that a variable is bound to stands in the root graph.
pub open spec fn place_of(
    graph: GraphModel,
    variable: Seq<char>,
    bound: QueryModel,
    range: SourceRange,
) -> Created<Place> {
    match bound {
        QueryModel::Node(handle) => if handle.source != 0 {
            Err(read_only("`"@ + variable + "`"@, range))
        } else {
            match node_at(graph.nodes, handle.id, 0) {
                Some(at) => Ok(Place::Node(at)),
                None => Err(
                    meaningless(
                        "`"@ + variable + "` names a node this database no longer holds"@,
                        range,
                    ),
                ),
            }
        },
        QueryModel::Relationship(handle) => if handle.source != 0 {
            Err(read_only("`"@ + variable + "`"@, range))
        } else {
            match edge_at(graph.edges, handle.id, 0) {
                Some(at) => Ok(Place::Edge(at)),
                None => Err(
                    meaningless(
                        "`"@ + variable + "` names a relationship this database no longer holds"@,
                        range,
                    ),
                ),
            }
        },
        _ => Err(
            meaningless(
                "`"@ + variable + "` is bound to "@ + bound.kind()
                    + ", which is not a record to modify"@,
                range,
            ),
        ),
    }
}

fn quoted(variable: &str, rest: &str) -> (message: String)
    ensures
        message@ == "`"@ + variable@ + rest@,
{
    let mut message = joined("`", variable);
    message.append(rest);
    message
}

fn find_record(graph: &Graph, variable: &str, bound: &QueryValue, range: SourceRange) -> (made: Result<
    Found,
    QueryError,
>)
    ensures
        match made {
            Ok(found) => place_of(graph@, variable@, bound@, range) == Ok::<_, QueryErrorModel>(
                found@,
            ),
            Err(error) => place_of(graph@, variable@, bound@, range) == Err::<Place, _>(error@),
        },
        match made {
            Ok(Found::Node(at)) => at < graph.nodes@.len(),
            Ok(Found::Edge(at)) => at < graph.edges@.len(),
            Err(_) => true,
        },
{
    match bound {
        QueryValue::Node(handle) => {
            if handle.source != 0 {
                return Err(refuse_linked(quoted(variable, "`").as_str(), range));
            }
            let ghost models = graph@.nodes;
            let mut at: usize = 0;
            while at < graph.nodes.len()
                invariant
                    at <= graph.nodes@.len(),
                    models == graph@.nodes,
                    node_at(models, handle.id, 0) == node_at(models, handle.id, at as int),
                    bound@ == QueryModel::Node(*handle),
                    handle.source == 0,
                decreases graph.nodes@.len() - at,
            {
                assert(models[at as int] == graph.nodes@[at as int]@);
                if graph.nodes[at].id.same(&handle.id) {
                    return Ok(Found::Node(at));
                }
                at = at + 1;
            }
            Err(
                semantic(
                    quoted(variable, "` names a node this database no longer holds").as_str(),
                    range,
                ),
            )
        }
        QueryValue::Relationship(handle) => {
            if handle.source != 0 {
                return Err(refuse_linked(quoted(variable, "`").as_str(), range));
            }
            let ghost models = graph@.edges;
            let mut at: usize = 0;
            while at < graph.edges.len()
                invariant
                    at <= graph.edges@.len(),
                    models == graph@.edges,
                    edge_at(models, handle.id, 0) == edge_at(models, handle.id, at as int),
                    bound@ == QueryModel::Relationship(*handle),
                    handle.source == 0,
                decreases graph.edges@.len() - at,
            {
                assert(models[at as int] == graph.edges@[at as int]@);
                if graph.edges[at].id.same(&handle.id) {
                    return Ok(Found::Edge(at));
                }
                at = at + 1;
            }
            Err(
                semantic(
                    quoted(variable, "` names a relationship this database no longer holds").as_str(),
                    range,
                ),
            )
        }
        other => {
            let mut message = quoted(variable, "` is bound to ");
            message.append(other.kind_name());
            message.append(", which is not a record to modify");
            Err(semantic(message.as_str(), range))
        }
    }
}

/// A graph with another node at a place.
pub open spec fn with_node(graph: GraphModel, at: int, node: NodeModel) -> GraphModel {
    GraphModel { nodes: graph.nodes.update(at, node), ..graph }
}

/// A graph with another edge at a place.
pub open spec fn with_edge(graph: GraphModel, at: int, edge: EdgeModel) -> GraphModel {
    GraphModel { edges: graph.edges.update(at, edge), ..graph }
}

/// The graph and the counts after a property of a record is set or removed.
pub open spec fn property_changed(
    graph: GraphModel,
    summary: WriteSummary,
    place: Place,
    key: Seq<char>,
    value: Option<PropertyModel>,
) -> (GraphModel, WriteSummary) {
    match place {
        Place::Node(at) => {
            let node = graph.nodes[at];
            let (properties, change) = property_change(node.properties, key, value);
            (
                with_node(
                    graph,
                    at,
                    NodeModel {
                        properties,
                        contributions: owned_after(change, node.contributions),
                        ..node
                    },
                ),
                counted_change(summary, change),
            )
        },
        Place::Edge(at) => {
            let edge = graph.edges[at];
            let (properties, change) = property_change(edge.properties, key, value);
            (
                with_edge(
                    graph,
                    at,
                    EdgeModel {
                        properties,
                        contributions: owned_after(change, edge.contributions),
                        ..edge
                    },
                ),
                counted_change(summary, change),
            )
        },
    }
}

/// The graph and the counts after the labels of a node are changed.
pub open spec fn labels_changed(
    graph: GraphModel,
    summary: WriteSummary,
    at: int,
    change: (Seq<Seq<char>>, Option<Change>),
) -> (GraphModel, WriteSummary) {
    let node = graph.nodes[at];
    (
        with_node(
            graph,
            at,
            NodeModel {
                labels: change.0,
                contributions: owned_after(change.1, node.contributions),
                ..node
            },
        ),
        counted_change(summary, change.1),
    )
}

/// What is said of a label on a relationship.
pub open spec fn no_labels(range: SourceRange) -> QueryErrorModel {
    meaningless("a relationship has one relation type and carries no labels"@, range)
}

/// What one `SET` item comes to. A null record is left alone, and a null value removes.
pub open spec fn assigned(
    graph: GraphModel,
    summary: WriteSummary,
    item: SetItem,
    variable: Seq<char>,
    bound: QueryModel,
    value: Option<QueryModel>,
    range: SourceRange,
) -> Created<(GraphModel, WriteSummary)> {
    if bound == QueryModel::Null {
        Ok((graph, summary))
    } else {
        match item {
            SetItem::Property { key, .. } => match name_fault(key@) {
                Some(error) => Err(invalid_name("a property key"@, key@, error, range)),
                None => match stored(
                    match value {
                        Some(found) => found,
                        None => QueryModel::Null,
                    },
                    range,
                ) {
                    Err(wrong) => Err(wrong),
                    Ok(found) => match place_of(graph, variable, bound, range) {
                        Err(wrong) => Err(wrong),
                        Ok(place) => Ok(property_changed(graph, summary, place, key@, found)),
                    },
                },
            },
            SetItem::Label { label, .. } => match name_fault(label@) {
                Some(error) => Err(invalid_name("a label"@, label@, error, range)),
                None => match place_of(graph, variable, bound, range) {
                    Err(wrong) => Err(wrong),
                    Ok(Place::Edge(_)) => Err(no_labels(range)),
                    Ok(Place::Node(at)) => Ok(
                        labels_changed(
                            graph,
                            summary,
                            at,
                            label_addition(graph.nodes[at].labels, label@),
                        ),
                    ),
                },
            },
        }
    }
}

/// What one `REMOVE` item comes to. A null record is left alone.
pub open spec fn removed(
    graph: GraphModel,
    summary: WriteSummary,
    item: RemoveItem,
    variable: Seq<char>,
    bound: QueryModel,
    range: SourceRange,
) -> Created<(GraphModel, WriteSummary)> {
    if bound == QueryModel::Null {
        Ok((graph, summary))
    } else {
        match item {
            RemoveItem::Property { key, .. } => match name_fault(key@) {
                Some(error) => Err(invalid_name("a property key"@, key@, error, range)),
                None => match place_of(graph, variable, bound, range) {
                    Err(wrong) => Err(wrong),
                    Ok(place) => Ok(property_changed(graph, summary, place, key@, None)),
                },
            },
            RemoveItem::Label { label, .. } => match name_fault(label@) {
                Some(error) => Err(invalid_name("a label"@, label@, error, range)),
                None => match place_of(graph, variable, bound, range) {
                    Err(wrong) => Err(wrong),
                    Ok(Place::Edge(_)) => Err(no_labels(range)),
                    Ok(Place::Node(at)) => {
                        let labels = graph.nodes[at].labels;
                        if labels.len() == 1 && labels.contains(label@) {
                            Err(
                                meaningless(
                                    "removing a node's last label would leave a Node NostDB cannot store"@,
                                    range,
                                ),
                            )
                        } else {
                            Ok(
                                labels_changed(
                                    graph,
                                    summary,
                                    at,
                                    label_removal(labels, label@),
                                ),
                            )
                        }
                    },
                },
            },
        }
    }
}

proof fn other_node(nodes: Seq<Node>, at: int, node: Node)
    requires
        0 <= at < nodes.len(),
    ensures
        views(nodes.update(at, node)) == views(nodes).update(at, node@),
{
    assert(views(nodes.update(at, node)) =~= views(nodes).update(at, node@));
}

proof fn other_edge(edges: Seq<Edge>, at: int, edge: Edge)
    requires
        0 <= at < edges.len(),
    ensures
        views(edges.update(at, edge)) == views(edges).update(at, edge@),
{
    assert(views(edges.update(at, edge)) =~= views(edges).update(at, edge@));
}

fn edit_property(
    graph: &mut Graph,
    summary: &mut WriteSummary,
    place: Found,
    key: PropertyKey,
    value: Option<PropertyValue>,
)
    requires
        match place {
            Found::Node(at) => at < old(graph).nodes@.len(),
            Found::Edge(at) => at < old(graph).edges@.len(),
        },
    ensures
        (final(graph)@, *final(summary)) == property_changed(
            old(graph)@,
            *old(summary),
            place@,
            key@,
            view_of(value),
        ),
{
    match place {
        Found::Node(at) => {
            let mut node = graph.nodes[at].copied();
            assert(node@ == graph@.nodes[at as int]);
            let change = change_property(&mut node.properties, key, value);
            record(summary, change, &mut node.contributions);
            proof {
                other_node(graph.nodes@, at as int, node);
            }
            graph.nodes.set(at, node);
        }
        Found::Edge(at) => {
            let mut edge = graph.edges[at].copied();
            assert(edge@ == graph@.edges[at as int]);
            let change = change_property(&mut edge.properties, key, value);
            record(summary, change, &mut edge.contributions);
            proof {
                other_edge(graph.edges@, at as int, edge);
            }
            graph.edges.set(at, edge);
        }
    }
}

/// Applies one `SET` item.
pub(crate) fn assign_item(
    graph: &mut Graph,
    summary: &mut WriteSummary,
    item: &SetItem,
    variable: &str,
    bound: &QueryValue,
    value: Option<QueryValue>,
    range: SourceRange,
) -> (made: Result<(), QueryError>)
    ensures
        match made {
            Ok(_) => assigned(
                old(graph)@,
                *old(summary),
                *item,
                variable@,
                bound@,
                view_of(value),
                range,
            ) == Ok::<_, QueryErrorModel>((final(graph)@, *final(summary))),
            Err(error) => assigned(
                old(graph)@,
                *old(summary),
                *item,
                variable@,
                bound@,
                view_of(value),
                range,
            ) == Err::<(GraphModel, WriteSummary), _>(error@) && final(graph)@ == old(graph)@
                && *final(summary) == *old(summary),
        },
{
    if bound.is_null() {
        return Ok(());
    }
    match item {
        SetItem::Property { key, .. } => {
            let made = match PropertyKey::new(key.as_str()) {
                Err(error) => {
                    return Err(bad_name("a property key", key.as_str(), error, range));
                }
                Ok(made) => made,
            };
            let given = match value {
                Some(found) => found,
                None => QueryValue::Null,
            };
            let found = match stored_value(&given, range) {
                Err(error) => {
                    return Err(error);
                }
                Ok(found) => found,
            };
            match find_record(graph, variable, bound, range) {
                Err(error) => Err(error),
                Ok(place) => {
                    edit_property(graph, summary, place, made, found);
                    Ok(())
                }
            }
        }
        SetItem::Label { label, .. } => {
            let made = match Label::new(label.as_str()) {
                Err(error) => {
                    return Err(bad_name("a label", label.as_str(), error, range));
                }
                Ok(made) => made,
            };
            match find_record(graph, variable, bound, range) {
                Err(error) => Err(error),
                Ok(Found::Edge(_)) => Err(
                    semantic("a relationship has one relation type and carries no labels", range),
                ),
                Ok(Found::Node(at)) => {
                    let mut node = graph.nodes[at].copied();
                    assert(node@ == graph@.nodes[at as int]);
                    let change = add_label(&mut node.labels, made);
                    record(summary, change, &mut node.contributions);
                    proof {
                        other_node(graph.nodes@, at as int, node);
                    }
                    graph.nodes.set(at, node);
                    Ok(())
                }
            }
        }
    }
}

/// Applies one `REMOVE` item.
pub(crate) fn remove_item(
    graph: &mut Graph,
    summary: &mut WriteSummary,
    item: &RemoveItem,
    variable: &str,
    bound: &QueryValue,
    range: SourceRange,
) -> (made: Result<(), QueryError>)
    ensures
        match made {
            Ok(_) => removed(old(graph)@, *old(summary), *item, variable@, bound@, range)
                == Ok::<_, QueryErrorModel>((final(graph)@, *final(summary))),
            Err(error) => removed(old(graph)@, *old(summary), *item, variable@, bound@, range)
                == Err::<(GraphModel, WriteSummary), _>(error@) && final(graph)@ == old(graph)@
                && *final(summary) == *old(summary),
        },
{
    if bound.is_null() {
        return Ok(());
    }
    match item {
        RemoveItem::Property { key, .. } => {
            let made = match PropertyKey::new(key.as_str()) {
                Err(error) => {
                    return Err(bad_name("a property key", key.as_str(), error, range));
                }
                Ok(made) => made,
            };
            match find_record(graph, variable, bound, range) {
                Err(error) => Err(error),
                Ok(place) => {
                    edit_property(graph, summary, place, made, None);
                    Ok(())
                }
            }
        }
        RemoveItem::Label { label, .. } => {
            let made = match Label::new(label.as_str()) {
                Err(error) => {
                    return Err(bad_name("a label", label.as_str(), error, range));
                }
                Ok(made) => made,
            };
            match find_record(graph, variable, bound, range) {
                Err(error) => Err(error),
                Ok(Found::Edge(_)) => Err(
                    semantic("a relationship has one relation type and carries no labels", range),
                ),
                Ok(Found::Node(at)) => {
                    let mut node = graph.nodes[at].copied();
                    assert(node@ == graph@.nodes[at as int]);
                    if node.labels.len() == 1 && holds_label(&node.labels, &made) {
                        return Err(
                            semantic(
                                "removing a node's last label would leave a Node NostDB cannot store",
                                range,
                            ),
                        );
                    }
                    let change = remove_label(&mut node.labels, &made);
                    record(summary, change, &mut node.contributions);
                    proof {
                        other_node(graph.nodes@, at as int, node);
                    }
                    graph.nodes.set(at, node);
                    Ok(())
                }
            }
        }
    }
}

// -- Deleting ----------------------------------------------------------------------

/// Whether an edge starts or ends at a node of the same database.
pub open spec fn touches(edge: EdgeModel, id: LocalNodeId) -> bool {
    edge.source == ReferenceModel::Local(id) || edge.target == ReferenceModel::Local(id)
}

/// The identifiers of the edges at a node, of the first `count`.
pub open spec fn incident(edges: Seq<EdgeModel>, id: LocalNodeId, count: int) -> Seq<LocalEdgeId>
    decreases count,
{
    if count <= 0 {
        Seq::empty()
    } else if touches(edges[count - 1], id) {
        incident(edges, id, count - 1).push(edges[count - 1].id)
    } else {
        incident(edges, id, count - 1)
    }
}

/// The first `count` edges without those of an identifier.
pub open spec fn without_edge(edges: Seq<EdgeModel>, id: LocalEdgeId, count: int) -> Seq<EdgeModel>
    decreases count,
{
    if count <= 0 {
        Seq::empty()
    } else if edges[count - 1].id == id {
        without_edge(edges, id, count - 1)
    } else {
        without_edge(edges, id, count - 1).push(edges[count - 1])
    }
}

/// The first `count` nodes without those of an identifier.
pub open spec fn without_node(nodes: Seq<NodeModel>, id: LocalNodeId, count: int) -> Seq<NodeModel>
    decreases count,
{
    if count <= 0 {
        Seq::empty()
    } else if nodes[count - 1].id == id {
        without_node(nodes, id, count - 1)
    } else {
        without_node(nodes, id, count - 1).push(nodes[count - 1])
    }
}

/// The graph and the counts after an edge is deleted.
pub open spec fn edge_deleted(graph: GraphModel, summary: WriteSummary, id: LocalEdgeId) -> (
    GraphModel,
    WriteSummary,
) {
    let edges = without_edge(graph.edges, id, graph.edges.len() as int);
    (
        GraphModel { edges, ..graph },
        if edges.len() != graph.edges.len() {
            WriteSummary { edges_deleted: one_more(summary.edges_deleted), ..summary }
        } else {
            summary
        },
    )
}

/// The graph and the counts after the first `count` of some edges are deleted.
pub open spec fn edges_deleted(
    graph: GraphModel,
    summary: WriteSummary,
    ids: Seq<LocalEdgeId>,
    count: int,
) -> (GraphModel, WriteSummary)
    decreases count,
{
    if count <= 0 {
        (graph, summary)
    } else {
        let (before, counts) = edges_deleted(graph, summary, ids, count - 1);
        edge_deleted(before, counts, ids[count - 1])
    }
}

/// The graph and the counts after a node is deleted.
pub open spec fn node_deleted(graph: GraphModel, summary: WriteSummary, id: LocalNodeId) -> (
    GraphModel,
    WriteSummary,
) {
    let nodes = without_node(graph.nodes, id, graph.nodes.len() as int);
    (
        GraphModel { nodes, ..graph },
        if nodes.len() != graph.nodes.len() {
            WriteSummary { nodes_deleted: one_more(summary.nodes_deleted), ..summary }
        } else {
            summary
        },
    )
}

/// What deleting a value comes to. Deleting null changes nothing.
pub open spec fn deleted(
    graph: GraphModel,
    summary: WriteSummary,
    bound: QueryModel,
    detach: bool,
    range: SourceRange,
) -> Created<(GraphModel, WriteSummary)> {
    match bound {
        QueryModel::Node(handle) => if handle.source != 0 {
            Err(read_only("the node named by `DELETE`"@, range))
        } else {
            let edges = incident(graph.edges, handle.id, graph.edges.len() as int);
            if edges.len() > 0 && !detach {
                Err(
                    meaningless(
                        "this node still has a relationship; an Edge always has two non-null endpoints, so use `DETACH DELETE` to remove both"@,
                        range,
                    ),
                )
            } else {
                let (before, counts) = edges_deleted(graph, summary, edges, edges.len() as int);
                Ok(node_deleted(before, counts, handle.id))
            }
        },
        QueryModel::Relationship(handle) => if handle.source != 0 {
            Err(read_only("the relationship named by `DELETE`"@, range))
        } else {
            Ok(edge_deleted(graph, summary, handle.id))
        },
        QueryModel::Null => Ok((graph, summary)),
        _ => Err(
            meaningless(
                "`DELETE` takes a node or a relationship, and was given "@ + bound.kind(),
                range,
            ),
        ),
    }
}

fn is_at(reference: &NodeReference, id: LocalNodeId) -> (answer: bool)
    ensures
        answer == (reference@ == ReferenceModel::Local(id)),
{
    match reference.local() {
        Some(own) => own.same(&id),
        None => false,
    }
}

fn find_incident(graph: &Graph, id: LocalNodeId) -> (found: Vec<LocalEdgeId>)
    ensures
        found@ == incident(graph@.edges, id, graph@.edges.len() as int),
{
    let ghost models = graph@.edges;
    let mut found: Vec<LocalEdgeId> = Vec::new();
    let mut at: usize = 0;
    while at < graph.edges.len()
        invariant
            at <= graph.edges@.len(),
            models == graph@.edges,
            found@ == incident(models, id, at as int),
        decreases graph.edges@.len() - at,
    {
        assert(models[at as int] == graph.edges@[at as int]@);
        if is_at(&graph.edges[at].source, id) || is_at(&graph.edges[at].target, id) {
            found.push(graph.edges[at].id);
        }
        at = at + 1;
    }
    found
}

fn delete_edge(graph: &mut Graph, summary: &mut WriteSummary, id: LocalEdgeId)
    ensures
        (final(graph)@, *final(summary)) == edge_deleted(old(graph)@, *old(summary), id),
{
    let ghost models = graph@.edges;
    let total: usize = graph.edges.len();
    let mut kept: Vec<Edge> = Vec::new();
    assert(views(kept@) =~= Seq::<EdgeModel>::empty());
    let mut at: usize = 0;
    while at < graph.edges.len()
        invariant
            at <= graph.edges@.len(),
            models == graph@.edges,
            views(kept@) == without_edge(models, id, at as int),
        decreases graph.edges@.len() - at,
    {
        assert(models[at as int] == graph.edges@[at as int]@);
        if !graph.edges[at].id.same(&id) {
            let edge = graph.edges[at].copied();
            proof {
                views_push(kept@, edge);
            }
            kept.push(edge);
        }
        at = at + 1;
    }
    assert(views(kept@).len() == kept@.len());
    if kept.len() != total {
        summary.edges_deleted = counted(summary.edges_deleted);
    }
    graph.edges = kept;
}

fn delete_node(graph: &mut Graph, summary: &mut WriteSummary, id: LocalNodeId)
    ensures
        (final(graph)@, *final(summary)) == node_deleted(old(graph)@, *old(summary), id),
{
    let ghost models = graph@.nodes;
    let total: usize = graph.nodes.len();
    let mut kept: Vec<Node> = Vec::new();
    assert(views(kept@) =~= Seq::<NodeModel>::empty());
    let mut at: usize = 0;
    while at < graph.nodes.len()
        invariant
            at <= graph.nodes@.len(),
            models == graph@.nodes,
            views(kept@) == without_node(models, id, at as int),
        decreases graph.nodes@.len() - at,
    {
        assert(models[at as int] == graph.nodes@[at as int]@);
        if !graph.nodes[at].id.same(&id) {
            let node = graph.nodes[at].copied();
            proof {
                views_push(kept@, node);
            }
            kept.push(node);
        }
        at = at + 1;
    }
    assert(views(kept@).len() == kept@.len());
    if kept.len() != total {
        summary.nodes_deleted = counted(summary.nodes_deleted);
    }
    graph.nodes = kept;
}

/// Deletes one bound value.
pub(crate) fn delete_value(
    graph: &mut Graph,
    summary: &mut WriteSummary,
    bound: &QueryValue,
    detach: bool,
    range: SourceRange,
) -> (made: Result<(), QueryError>)
    ensures
        match made {
            Ok(_) => deleted(old(graph)@, *old(summary), bound@, detach, range)
                == Ok::<_, QueryErrorModel>((final(graph)@, *final(summary))),
            Err(error) => deleted(old(graph)@, *old(summary), bound@, detach, range)
                == Err::<(GraphModel, WriteSummary), _>(error@) && final(graph)@ == old(graph)@
                && *final(summary) == *old(summary),
        },
{
    match bound {
        QueryValue::Node(handle) => {
            if handle.source != 0 {
                return Err(refuse_linked("the node named by `DELETE`", range));
            }
            let edges = find_incident(graph, handle.id);
            if edges.len() > 0 && !detach {
                return Err(
                    semantic(
                        "this node still has a relationship; an Edge always has two non-null endpoints, so use `DETACH DELETE` to remove both",
                        range,
                    ),
                );
            }
            let ghost before = graph@;
            let ghost counts = *summary;
            let mut at: usize = 0;
            while at < edges.len()
                invariant
                    at <= edges@.len(),
                    (graph@, *summary) == edges_deleted(before, counts, edges@, at as int),
                decreases edges@.len() - at,
            {
                delete_edge(graph, summary, edges[at]);
                at = at + 1;
            }
            delete_node(graph, summary, handle.id);
            Ok(())
        }
        QueryValue::Relationship(handle) => {
            if handle.source != 0 {
                return Err(refuse_linked("the relationship named by `DELETE`", range));
            }
            delete_edge(graph, summary, handle.id);
            Ok(())
        }
        QueryValue::Null => Ok(()),
        other => Err(
            semantic(
                joined(
                    "`DELETE` takes a node or a relationship, and was given ",
                    other.kind_name(),
                ).as_str(),
                range,
            ),
        ),
    }
}

// -- Writer ------------------------------------------------------------------------

/// Applies the write side of a graph, one clause at a time.
///
/// The graph, the minter and the summary are borrowed, because one query may hold several
/// write clauses and a minter that restarted between them would issue the same identifier
/// twice.
#[derive(Debug)]
pub struct Writer<'a> {
    /// The graph that is written to.
    pub graph: &'a mut Graph,
    /// What issues identifiers.
    pub minter: &'a mut Minter,
    /// What was changed.
    pub summary: &'a mut WriteSummary,
}

impl<'a> Writer<'a> {
    /// A writer over `graph`, continuing an existing minter and summary.
    pub fn new(graph: &'a mut Graph, minter: &'a mut Minter, summary: &'a mut WriteSummary) -> (made:
        Self)
        ensures
            *made.graph == *old(graph),
            *made.minter == *old(minter),
            *made.summary == *old(summary),
            *final(made.graph) == *final(graph),
            *final(made.minter) == *final(minter),
            *final(made.summary) == *final(summary),
    {
        Writer { graph, minter, summary }
    }

    /// Creates every node and relationship of `pattern` that is not already bound.
    ///
    /// A pattern that breaks a rule of the model is refused with
    /// [`DiagnosticCode::CypherSemanticError`]: a node without a label, a relationship
    /// without exactly one type or without a direction, an invalid name, or a null property
    /// value. What was created before the refusal stays.
    pub fn create(
        &mut self,
        pattern: &Pattern,
        bindings: &mut Bindings,
        properties: &PatternValues,
        range: SourceRange,
    ) -> (made: Result<(), QueryError>)
        requires
            pattern.steps@.len() <= properties.steps@.len(),
        ensures
            exists|minted: Minted, used: nat|
                {
                    &&& #[trigger] Minter::issued_all(
                        *old(self).minter,
                        *final(self).minter,
                        Seq::new(used, minted),
                    )
                    &&& pattern_created(
                        Written {
                            graph: old(self).graph@,
                            summary: *old(self).summary,
                            scope: old(bindings)@,
                            used: 0,
                        },
                        *pattern,
                        properties@,
                        range,
                        minted,
                    ) == (
                        Written {
                            graph: final(self).graph@,
                            summary: *final(self).summary,
                            scope: final(bindings)@,
                            used: used as int,
                        },
                        made_model(made),
                    )
                },
            *final(final(self).graph) == *final(old(self).graph),
            *final(final(self).minter) == *final(old(self).minter),
            *final(final(self).summary) == *final(old(self).summary),
    {
        let ghost start = *self.minter;
        let (made, Ghost(minted)) = create_pattern(
            self.graph,
            self.minter,
            self.summary,
            bindings,
            pattern,
            properties,
            range,
            Ghost(Seq::empty()),
        );
        proof {
            Minter::issued_none(start);
            assert(Minter::issued_all(start, *self.minter, minted));
            let all: Minted = |i: int| minted[i];
            assert(goes_on(all, minted));
            assert(Seq::new(minted.len(), all) =~= minted);
        }
        made
    }

    /// Applies one `SET` item.
    ///
    /// A null record is left alone, which keeps an unmatched `OPTIONAL MATCH` row usable in
    /// a write. A value that is not a record and an invalid name are refused with
    /// [`DiagnosticCode::CypherSemanticError`], and nothing changes.
    pub fn set(
        &mut self,
        item: &SetItem,
        variable: &str,
        bound: &QueryValue,
        value: Option<QueryValue>,
        range: SourceRange,
    ) -> (made: Result<(), QueryError>)
        ensures
            match made {
                Ok(_) => assigned(
                    old(self).graph@,
                    *old(self).summary,
                    *item,
                    variable@,
                    bound@,
                    view_of(value),
                    range,
                ) == Ok::<_, QueryErrorModel>((final(self).graph@, *final(self).summary)),
                Err(error) => assigned(
                    old(self).graph@,
                    *old(self).summary,
                    *item,
                    variable@,
                    bound@,
                    view_of(value),
                    range,
                ) == Err::<(GraphModel, WriteSummary), _>(error@) && final(self).graph@
                    == old(self).graph@ && *final(self).summary == *old(self).summary,
            },
            *final(self).minter == *old(self).minter,
            *final(final(self).graph) == *final(old(self).graph),
            *final(final(self).minter) == *final(old(self).minter),
            *final(final(self).summary) == *final(old(self).summary),
    {
        assign_item(self.graph, self.summary, item, variable, bound, value, range)
    }

    /// Applies one `REMOVE` item.
    ///
    /// A null record is left alone, as it is for [`Writer::set`]. A value that is not a
    /// record, an invalid name and the removal of a node's last label are refused with
    /// [`DiagnosticCode::CypherSemanticError`], and nothing changes.
    pub fn remove(
        &mut self,
        item: &RemoveItem,
        variable: &str,
        bound: &QueryValue,
        range: SourceRange,
    ) -> (made: Result<(), QueryError>)
        ensures
            match made {
                Ok(_) => removed(
                    old(self).graph@,
                    *old(self).summary,
                    *item,
                    variable@,
                    bound@,
                    range,
                ) == Ok::<_, QueryErrorModel>((final(self).graph@, *final(self).summary)),
                Err(error) => removed(
                    old(self).graph@,
                    *old(self).summary,
                    *item,
                    variable@,
                    bound@,
                    range,
                ) == Err::<(GraphModel, WriteSummary), _>(error@) && final(self).graph@
                    == old(self).graph@ && *final(self).summary == *old(self).summary,
            },
            *final(self).minter == *old(self).minter,
            *final(final(self).graph) == *final(old(self).graph),
            *final(final(self).minter) == *final(old(self).minter),
            *final(final(self).summary) == *final(old(self).summary),
    {
        remove_item(self.graph, self.summary, item, variable, bound, range)
    }

    /// Deletes one bound value.
    ///
    /// A value that is not a record, and a node that still has a relationship where
    /// `detach` was not asked for, are refused with
    /// [`DiagnosticCode::CypherSemanticError`], and nothing changes.
    pub fn delete(&mut self, bound: &QueryValue, detach: bool, range: SourceRange) -> (made: Result<
        (),
        QueryError,
    >)
        ensures
            match made {
                Ok(_) => deleted(old(self).graph@, *old(self).summary, bound@, detach, range)
                    == Ok::<_, QueryErrorModel>((final(self).graph@, *final(self).summary)),
                Err(error) => deleted(
                    old(self).graph@,
                    *old(self).summary,
                    bound@,
                    detach,
                    range,
                ) == Err::<(GraphModel, WriteSummary), _>(error@) && final(self).graph@
                    == old(self).graph@ && *final(self).summary == *old(self).summary,
            },
            *final(self).minter == *old(self).minter,
            *final(final(self).graph) == *final(old(self).graph),
            *final(final(self).minter) == *final(old(self).minter),
            *final(final(self).summary) == *final(old(self).summary),
    {
        delete_value(self.graph, self.summary, bound, detach, range)
    }
}

// -- Laws --------------------------------------------------------------------------

/// Whether no count went down.
pub open spec fn counts_grow(before: WriteSummary, after: WriteSummary) -> bool {
    &&& before.nodes_created <= after.nodes_created
    &&& before.nodes_deleted <= after.nodes_deleted
    &&& before.edges_created <= after.edges_created
    &&& before.edges_deleted <= after.edges_deleted
    &&& before.properties_set <= after.properties_set
    &&& before.properties_removed <= after.properties_removed
    &&& before.labels_added <= after.labels_added
    &&& before.labels_removed <= after.labels_removed
}

/// Whether every count can still go up.
pub open spec fn can_count(summary: WriteSummary) -> bool {
    &&& summary.nodes_created < u64::MAX
    &&& summary.nodes_deleted < u64::MAX
    &&& summary.edges_created < u64::MAX
    &&& summary.edges_deleted < u64::MAX
    &&& summary.properties_set < u64::MAX
    &&& summary.properties_removed < u64::MAX
    &&& summary.labels_added < u64::MAX
    &&& summary.labels_removed < u64::MAX
}

/// Whether the counts tell of every change: none went down, and where none went up and
/// each could, the graph is the one from before.
pub open spec fn counts_tell(
    graph: GraphModel,
    summary: WriteSummary,
    after: GraphModel,
    counts: WriteSummary,
) -> bool {
    &&& counts_grow(summary, counts)
    &&& counts == summary && can_count(summary) ==> after == graph
}

/// Counts that tell of each of two changes tell of both.
pub proof fn counts_tell_of_both(
    first: (GraphModel, WriteSummary),
    second: (GraphModel, WriteSummary),
    third: (GraphModel, WriteSummary),
)
    requires
        counts_tell(first.0, first.1, second.0, second.1),
        counts_tell(second.0, second.1, third.0, third.1),
    ensures
        counts_tell(first.0, first.1, third.0, third.1),
{
}

/// Where the summary says that nothing changed, nothing did: the graph is the one from
/// before.
pub proof fn empty_summary_means_no_change(
    graph: GraphModel,
    after: GraphModel,
    counts: WriteSummary,
)
    requires
        counts_tell(graph, WriteSummary::nothing(), after, counts),
        counts == WriteSummary::nothing(),
    ensures
        after == graph,
{
}

proof fn keys_kept(properties: Seq<(Seq<char>, PropertyModel)>, key: Seq<char>, count: int)
    requires
        0 <= count <= properties.len(),
    ensures
        without_key(properties, key, count).len() <= count,
        without_key(properties, key, count).len() == count ==> without_key(properties, key, count)
            == properties.take(count),
    decreases count,
{
    if count > 0 {
        keys_kept(properties, key, count - 1);
        assert(properties.take(count) =~= properties.take(count - 1).push(properties[count - 1]));
    } else {
        assert(properties.take(0) =~= Seq::<(Seq<char>, PropertyModel)>::empty());
    }
}

proof fn labels_kept(labels: Seq<Seq<char>>, label: Seq<char>, count: int)
    requires
        0 <= count <= labels.len(),
    ensures
        without_label(labels, label, count).len() <= count,
        without_label(labels, label, count).len() == count ==> without_label(labels, label, count)
            == labels.take(count),
    decreases count,
{
    if count > 0 {
        labels_kept(labels, label, count - 1);
        assert(labels.take(count) =~= labels.take(count - 1).push(labels[count - 1]));
    } else {
        assert(labels.take(0) =~= Seq::<Seq<char>>::empty());
    }
}

proof fn edges_kept(edges: Seq<EdgeModel>, id: LocalEdgeId, count: int)
    requires
        0 <= count <= edges.len(),
    ensures
        without_edge(edges, id, count).len() <= count,
        without_edge(edges, id, count).len() == count ==> without_edge(edges, id, count)
            == edges.take(count),
        forall|i: int|
            0 <= i < without_edge(edges, id, count).len() ==> (#[trigger] without_edge(
                edges,
                id,
                count,
            )[i]).id != id && edges.contains(without_edge(edges, id, count)[i]),
    decreases count,
{
    if count > 0 {
        edges_kept(edges, id, count - 1);
        assert(edges.take(count) =~= edges.take(count - 1).push(edges[count - 1]));
        let shorter = without_edge(edges, id, count - 1);
        let longer = without_edge(edges, id, count);
        assert forall|i: int| 0 <= i < longer.len() implies (#[trigger] longer[i]).id != id
            && edges.contains(longer[i]) by {
            if i < shorter.len() {
                assert(longer[i] == shorter[i]);
            } else {
                assert(longer[i] == edges[count - 1]);
            }
        }
    } else {
        assert(edges.take(0) =~= Seq::<EdgeModel>::empty());
    }
}

proof fn nodes_kept(nodes: Seq<NodeModel>, id: LocalNodeId, count: int)
    requires
        0 <= count <= nodes.len(),
    ensures
        without_node(nodes, id, count).len() <= count,
        without_node(nodes, id, count).len() == count ==> without_node(nodes, id, count)
            == nodes.take(count),
        forall|i: int|
            0 <= i < without_node(nodes, id, count).len() ==> (#[trigger] without_node(
                nodes,
                id,
                count,
            )[i]).id != id,
    decreases count,
{
    if count > 0 {
        nodes_kept(nodes, id, count - 1);
        assert(nodes.take(count) =~= nodes.take(count - 1).push(nodes[count - 1]));
        let shorter = without_node(nodes, id, count - 1);
        let longer = without_node(nodes, id, count);
        assert forall|i: int| 0 <= i < longer.len() implies (#[trigger] longer[i]).id != id by {
            if i < shorter.len() {
                assert(longer[i] == shorter[i]);
            } else {
                assert(longer[i] == nodes[count - 1]);
            }
        }
    } else {
        assert(nodes.take(0) =~= Seq::<NodeModel>::empty());
    }
}

proof fn node_place_fits(nodes: Seq<NodeModel>, id: LocalNodeId, at: int)
    requires
        0 <= at,
    ensures
        node_at(nodes, id, at) matches Some(found) ==> at <= found < nodes.len()
            && nodes[found].id == id,
    decreases nodes.len() - at,
{
    if at < nodes.len() {
        node_place_fits(nodes, id, at + 1);
    }
}

proof fn edge_place_fits(edges: Seq<EdgeModel>, id: LocalEdgeId, at: int)
    requires
        0 <= at,
    ensures
        edge_at(edges, id, at) matches Some(found) ==> at <= found < edges.len()
            && edges[found].id == id,
    decreases edges.len() - at,
{
    if at < edges.len() {
        edge_place_fits(edges, id, at + 1);
    }
}

proof fn property_counts_tell(
    graph: GraphModel,
    summary: WriteSummary,
    place: Place,
    key: Seq<char>,
    value: Option<PropertyModel>,
)
    requires
        match place {
            Place::Node(at) => 0 <= at < graph.nodes.len(),
            Place::Edge(at) => 0 <= at < graph.edges.len(),
        },
    ensures
        counts_tell(
            graph,
            summary,
            property_changed(graph, summary, place, key, value).0,
            property_changed(graph, summary, place, key, value).1,
        ),
{
    match place {
        Place::Node(at) => {
            let node = graph.nodes[at];
            keys_kept(node.properties, key, node.properties.len() as int);
            assert(node.properties.take(node.properties.len() as int) =~= node.properties);
            assert(graph.nodes.update(at, node) =~= graph.nodes);
        },
        Place::Edge(at) => {
            let edge = graph.edges[at];
            keys_kept(edge.properties, key, edge.properties.len() as int);
            assert(edge.properties.take(edge.properties.len() as int) =~= edge.properties);
            assert(graph.edges.update(at, edge) =~= graph.edges);
        },
    }
}

/// A place lies within the graph.
pub proof fn place_fits(graph: GraphModel, variable: Seq<char>, bound: QueryModel, range: SourceRange)
    ensures
        match place_of(graph, variable, bound, range) {
            Ok(Place::Node(at)) => 0 <= at < graph.nodes.len(),
            Ok(Place::Edge(at)) => 0 <= at < graph.edges.len(),
            Err(_) => true,
        },
{
    match bound {
        QueryModel::Node(handle) => node_place_fits(graph.nodes, handle.id, 0),
        QueryModel::Relationship(handle) => edge_place_fits(graph.edges, handle.id, 0),
        _ => {},
    }
}

/// What one `SET` item changes is counted.
pub proof fn assignment_is_counted(
    graph: GraphModel,
    summary: WriteSummary,
    item: SetItem,
    variable: Seq<char>,
    bound: QueryModel,
    value: Option<QueryModel>,
    range: SourceRange,
)
    ensures
        assigned(graph, summary, item, variable, bound, value, range) matches Ok((after, counts))
            ==> counts_tell(graph, summary, after, counts),
{
    place_fits(graph, variable, bound, range);
    if let Ok(place) = place_of(graph, variable, bound, range) {
        match item {
            SetItem::Property { key, .. } => {
                let given = match value {
                    Some(found) => found,
                    None => QueryModel::Null,
                };
                if let Ok(found) = stored(given, range) {
                    property_counts_tell(graph, summary, place, key@, found);
                }
            },
            SetItem::Label { label, .. } => {
                if let Place::Node(at) = place {
                    assert(graph.nodes.update(at, graph.nodes[at]) =~= graph.nodes);
                }
            },
        }
    }
}

/// What one `REMOVE` item changes is counted.
pub proof fn removal_is_counted(
    graph: GraphModel,
    summary: WriteSummary,
    item: RemoveItem,
    variable: Seq<char>,
    bound: QueryModel,
    range: SourceRange,
)
    ensures
        removed(graph, summary, item, variable, bound, range) matches Ok((after, counts))
            ==> counts_tell(graph, summary, after, counts),
{
    place_fits(graph, variable, bound, range);
    if let Ok(place) = place_of(graph, variable, bound, range) {
        match item {
            RemoveItem::Property { key, .. } => {
                property_counts_tell(graph, summary, place, key@, None);
            },
            RemoveItem::Label { label, .. } => {
                if let Place::Node(at) = place {
                    let labels = graph.nodes[at].labels;
                    labels_kept(labels, label@, labels.len() as int);
                    assert(labels.take(labels.len() as int) =~= labels);
                    assert(graph.nodes.update(at, graph.nodes[at]) =~= graph.nodes);
                }
            },
        }
    }
}

proof fn edge_deletion_is_counted(graph: GraphModel, summary: WriteSummary, id: LocalEdgeId)
    ensures
        counts_tell(
            graph,
            summary,
            edge_deleted(graph, summary, id).0,
            edge_deleted(graph, summary, id).1,
        ),
{
    edges_kept(graph.edges, id, graph.edges.len() as int);
    assert(graph.edges.take(graph.edges.len() as int) =~= graph.edges);
}

proof fn edge_deletions_are_counted(
    graph: GraphModel,
    summary: WriteSummary,
    ids: Seq<LocalEdgeId>,
    count: int,
)
    ensures
        counts_tell(
            graph,
            summary,
            edges_deleted(graph, summary, ids, count).0,
            edges_deleted(graph, summary, ids, count).1,
        ),
    decreases count,
{
    if count > 0 {
        edge_deletions_are_counted(graph, summary, ids, count - 1);
        let (before, counts) = edges_deleted(graph, summary, ids, count - 1);
        edge_deletion_is_counted(before, counts, ids[count - 1]);
    }
}

/// What deleting a value changes is counted.
pub proof fn deletion_is_counted(
    graph: GraphModel,
    summary: WriteSummary,
    bound: QueryModel,
    detach: bool,
    range: SourceRange,
)
    ensures
        deleted(graph, summary, bound, detach, range) matches Ok((after, counts)) ==> counts_tell(
            graph,
            summary,
            after,
            counts,
        ),
{
    match bound {
        QueryModel::Node(handle) => {
            let edges = incident(graph.edges, handle.id, graph.edges.len() as int);
            edge_deletions_are_counted(graph, summary, edges, edges.len() as int);
            let (before, counts) = edges_deleted(graph, summary, edges, edges.len() as int);
            nodes_kept(before.nodes, handle.id, before.nodes.len() as int);
            assert(before.nodes.take(before.nodes.len() as int) =~= before.nodes);
        },
        QueryModel::Relationship(handle) => {
            edge_deletion_is_counted(graph, summary, handle.id);
        },
        _ => {},
    }
}

/// What creating a node of a pattern changes is counted.
pub proof fn node_creation_is_counted(
    state: Written,
    pattern: NodePattern,
    values: Seq<(Seq<char>, QueryModel)>,
    range: SourceRange,
    minted: Minted,
)
    ensures
        counts_tell(
            state.graph,
            state.summary,
            node_created(state, pattern, values, range, minted).0.graph,
            node_created(state, pattern, values, range, minted).0.summary,
        ),
{
}

/// What creating a relationship of a pattern changes is counted.
pub proof fn edge_creation_is_counted(
    state: Written,
    pattern: RelationshipPattern,
    from: LocalNodeId,
    to: LocalNodeId,
    values: Seq<(Seq<char>, QueryModel)>,
    range: SourceRange,
    minted: Minted,
)
    ensures
        counts_tell(
            state.graph,
            state.summary,
            edge_created(state, pattern, from, to, values, range, minted).0.graph,
            edge_created(state, pattern, from, to, values, range, minted).0.summary,
        ),
{
}

proof fn step_creations_are_counted(
    state: Written,
    previous: LocalNodeId,
    steps: Seq<(RelationshipPattern, NodePattern)>,
    values: PatternModel,
    at: int,
    range: SourceRange,
    minted: Minted,
)
    ensures
        counts_tell(
            state.graph,
            state.summary,
            steps_created(state, previous, steps, values, at, range, minted).0.graph,
            steps_created(state, previous, steps, values, at, range, minted).0.summary,
        ),
    decreases steps.len() - at,
{
    if 0 <= at < steps.len() {
        let relationship = steps[at].0;
        node_creation_is_counted(state, steps[at].1, values.steps[at].1, range, minted);
        if let (next, Ok(target)) = node_created(
            state,
            steps[at].1,
            values.steps[at].1,
            range,
            minted,
        ) {
            let from = if relationship.direction == Direction::Outgoing {
                previous
            } else {
                target
            };
            let to = if relationship.direction == Direction::Outgoing {
                target
            } else {
                previous
            };
            edge_creation_is_counted(
                next,
                relationship,
                from,
                to,
                values.steps[at].0,
                range,
                minted,
            );
            if let (last, Ok(_)) = edge_created(
                next,
                relationship,
                from,
                to,
                values.steps[at].0,
                range,
                minted,
            ) {
                step_creations_are_counted(last, target, steps, values, at + 1, range, minted);
            }
        }
    }
}

/// What creating a pattern changes is counted, also where it is refused midway.
pub proof fn creation_is_counted(
    state: Written,
    pattern: Pattern,
    values: PatternModel,
    range: SourceRange,
    minted: Minted,
)
    ensures
        counts_tell(
            state.graph,
            state.summary,
            pattern_created(state, pattern, values, range, minted).0.graph,
            pattern_created(state, pattern, values, range, minted).0.summary,
        ),
{
    reveal(pattern_created);
    node_creation_is_counted(state, pattern.start, values.start, range, minted);
    if let (next, Ok(first)) = node_created(state, pattern.start, values.start, range, minted) {
        step_creations_are_counted(next, first, pattern.steps@, values, 0, range, minted);
    }
}

proof fn incident_is_exact(edges: Seq<EdgeModel>, id: LocalNodeId, count: int, i: int)
    requires
        0 <= i < count <= edges.len(),
        touches(edges[i], id),
    ensures
        incident(edges, id, count).contains(edges[i].id),
    decreases count,
{
    if i < count - 1 {
        incident_is_exact(edges, id, count - 1, i);
        let shorter = incident(edges, id, count - 1);
        let place = choose|j: int| 0 <= j < shorter.len() && shorter[j] == edges[i].id;
        assert(incident(edges, id, count)[place] == edges[i].id);
    } else {
        let found = incident(edges, id, count);
        assert(found[found.len() - 1] == edges[i].id);
    }
}

proof fn deleted_edges_are_gone(
    graph: GraphModel,
    summary: WriteSummary,
    ids: Seq<LocalEdgeId>,
    count: int,
)
    requires
        0 <= count <= ids.len(),
    ensures
        forall|i: int, j: int|
            0 <= i < count && 0 <= j < edges_deleted(graph, summary, ids, count).0.edges.len()
                ==> (#[trigger] edges_deleted(graph, summary, ids, count).0.edges[j]).id
                != #[trigger] ids[i],
        forall|j: int|
            0 <= j < edges_deleted(graph, summary, ids, count).0.edges.len()
                ==> graph.edges.contains(
                #[trigger] edges_deleted(graph, summary, ids, count).0.edges[j],
            ),
    decreases count,
{
    if count > 0 {
        deleted_edges_are_gone(graph, summary, ids, count - 1);
        let before = edges_deleted(graph, summary, ids, count - 1).0.edges;
        let after = edges_deleted(graph, summary, ids, count).0.edges;
        edges_kept(before, ids[count - 1], before.len() as int);
        assert forall|i: int, j: int| 0 <= i < count && 0 <= j < after.len() implies (
        #[trigger] after[j]).id != #[trigger] ids[i] by {
            assert(before.contains(after[j]));
            let place = choose|k: int| 0 <= k < before.len() && before[k] == after[j];
            if i < count - 1 {
                assert(before[place].id != ids[i]);
            }
        }
        assert forall|j: int| 0 <= j < after.len() implies graph.edges.contains(
            #[trigger] after[j],
        ) by {
            assert(before.contains(after[j]));
            let place = choose|k: int| 0 <= k < before.len() && before[k] == after[j];
            assert(graph.edges.contains(before[place]));
        }
    } else {
        assert forall|j: int| 0 <= j < graph.edges.len() implies graph.edges.contains(
            #[trigger] graph.edges[j],
        ) by {}
    }
}

/// A deleted node is gone, and no edge of the graph is left without an endpoint by it.
pub proof fn deletion_leaves_no_dangling_edge(
    graph: GraphModel,
    summary: WriteSummary,
    handle: crate::value::ScopedNode,
    detach: bool,
    range: SourceRange,
)
    ensures
        deleted(graph, summary, QueryModel::Node(handle), detach, range) matches Ok((after, _))
            ==> {
            &&& forall|i: int|
                0 <= i < after.nodes.len() ==> (#[trigger] after.nodes[i]).id != handle.id
            &&& forall|i: int|
                0 <= i < after.edges.len() ==> !touches(#[trigger] after.edges[i], handle.id)
        },
{
    let ids = incident(graph.edges, handle.id, graph.edges.len() as int);
    let (before, counts) = edges_deleted(graph, summary, ids, ids.len() as int);
    deleted_edges_are_gone(graph, summary, ids, ids.len() as int);
    nodes_kept(before.nodes, handle.id, before.nodes.len() as int);
    assert forall|i: int| 0 <= i < before.edges.len() implies !touches(
        #[trigger] before.edges[i],
        handle.id,
    ) by {
        assert(graph.edges.contains(before.edges[i]));
        let place = choose|k: int|
            0 <= k < graph.edges.len() && graph.edges[k] == before.edges[i];
        if touches(graph.edges[place], handle.id) {
            incident_is_exact(graph.edges, handle.id, graph.edges.len() as int, place);
            let j = choose|k: int| 0 <= k < ids.len() && ids[k] == graph.edges[place].id;
            assert(before.edges[i].id != ids[j]);
        }
    }
}

/// A record of a linked source is never written to: `SET` and `REMOVE` refuse it, and so
/// does `DELETE`, which says that linked databases are read-only.
pub proof fn linked_records_are_read_only(
    graph: GraphModel,
    summary: WriteSummary,
    bound: QueryModel,
    variable: Seq<char>,
    range: SourceRange,
)
    requires
        match bound {
            QueryModel::Node(handle) => handle.source != 0,
            QueryModel::Relationship(handle) => handle.source != 0,
            _ => false,
        },
    ensures
        place_of(graph, variable, bound, range) == Err::<Place, _>(
            read_only("`"@ + variable + "`"@, range),
        ),
        forall|item: SetItem, value: Option<QueryModel>|
            (#[trigger] assigned(graph, summary, item, variable, bound, value, range)) is Err,
        forall|item: RemoveItem|
            (#[trigger] removed(graph, summary, item, variable, bound, range)) is Err,
        forall|detach: bool|
            (#[trigger] deleted(graph, summary, bound, detach, range)) matches Err(error)
                && error.code == DiagnosticCode::LinkedDatabaseReadOnly,
{
}

proof fn labels_are_some(
    names: Seq<String>,
    at: int,
    range: SourceRange,
    before: Seq<Seq<char>>,
)
    requires
        0 <= at <= names.len(),
    ensures
        labels_made(names, at, range, before) matches Ok(labels) ==> labels.len() >= before.len()
            && (at < names.len() ==> labels.len() > 0),
    decreases names.len() - at,
{
    if at < names.len() {
        labels_are_some(names, at + 1, range, with_new(before, names[at]@));
    }
}

proof fn unused_is_unused(nodes: Seq<NodeModel>, minted: Minted, at: int, left: nat)
    ensures
        unused_by_nodes(nodes, minted, at, left) matches Some(found) ==> at <= found < at + left
            && !node_uses(nodes, minted(found)),
    decreases left,
{
    if left > 0 && node_uses(nodes, minted(at)) {
        unused_is_unused(nodes, minted, at + 1, (left - 1) as nat);
    }
}

/// A created node stands behind those that were there, with at least one label, the user
/// as its only contributor, and bytes for an identifier that no other node had.
pub proof fn created_node_is_sound(
    state: Written,
    pattern: NodePattern,
    values: Seq<(Seq<char>, QueryModel)>,
    range: SourceRange,
    minted: Minted,
)
    requires
        bound_to(state.scope, pattern.variable) is None,
    ensures
        node_created(state, pattern, values, range, minted) matches (after, Ok(id)) ==> {
            &&& after.graph.nodes.len() == state.graph.nodes.len() + 1
            &&& after.graph.nodes.drop_last() == state.graph.nodes
            &&& after.graph.nodes.last().id == id
            &&& after.graph.nodes.last().labels.len() > 0
            &&& after.graph.nodes.last().contributions == seq![user_entry()]
            &&& exists|at: int|
                state.used <= at < after.used && id == LocalNodeId::with_bytes(
                    #[trigger] minted(at),
                ) && !node_uses(state.graph.nodes, minted(at))
        },
{
    labels_are_some(pattern.labels@, 0, range, Seq::empty());
    unused_is_unused(state.graph.nodes, minted, state.used, u64::MAX as nat);
    let (after, made) = node_created(state, pattern, values, range, minted);
    if made is Ok {
        assert(after.graph.nodes.drop_last() =~= state.graph.nodes);
    }
}

/// Whether as many minted identifiers as can be counted, from a place on, all differ.
pub open spec fn minted_differ(minted: Minted, at: int) -> bool {
    forall|i: int, j: int|
        at <= i < j < at + u64::MAX ==> #[trigger] minted(i) != #[trigger] minted(j)
}

proof fn taken_nodes(nodes: Seq<NodeModel>, minted: Minted, at: int, left: nat)
    requires
        unused_by_nodes(nodes, minted, at, left) is None,
    ensures
        forall|i: int| at <= i < at + left ==> node_uses(nodes, #[trigger] minted(i)),
    decreases left,
{
    if left > 0 {
        taken_nodes(nodes, minted, at + 1, (left - 1) as nat);
    }
}

proof fn taken_edges(edges: Seq<EdgeModel>, minted: Minted, at: int, left: nat)
    requires
        unused_by_edges(edges, minted, at, left) is None,
    ensures
        forall|i: int| at <= i < at + left ==> edge_uses(edges, #[trigger] minted(i)),
    decreases left,
{
    if left > 0 {
        taken_edges(edges, minted, at + 1, (left - 1) as nat);
    }
}

/// Identifiers that differ cannot all be among fewer.
proof fn some_is_not_among(minted: Minted, at: int, among: Seq<Seq<u8>>)
    requires
        minted_differ(minted, at),
        among.len() < u64::MAX,
    ensures
        exists|i: int| at <= i < at + u64::MAX && !among.contains(#[trigger] minted(i)),
{
    if forall|i: int| at <= i < at + u64::MAX ==> among.contains(#[trigger] minted(i)) {
        let asked = Seq::new(u64::MAX as nat, |k: int| minted(at + k));
        assert forall|i: int, j: int|
            0 <= i < asked.len() && 0 <= j < asked.len() && i != j implies asked[i] != asked[j] by {
            if i < j {
                assert(minted(at + i) != minted(at + j));
            } else {
                assert(minted(at + j) != minted(at + i));
            }
        }
        asked.unique_seq_to_set();
        among.lemma_cardinality_of_set();
        assert forall|bytes: Seq<u8>| asked.to_set().contains(bytes) implies among.to_set().contains(
            bytes,
        ) by {
            let k = choose|k: int| 0 <= k < asked.len() && asked[k] == bytes;
            assert(among.contains(minted(at + k)));
        }
        assert(asked.to_set().subset_of(among.to_set()));
        vstd::set_lib::lemma_len_subset(asked.to_set(), among.to_set());
    }
}

/// Where the identifiers that are minted differ, one of them is free for a node.
pub proof fn some_identifier_is_free_for_a_node(nodes: Seq<NodeModel>, minted: Minted, at: int)
    requires
        nodes.len() < u64::MAX,
        minted_differ(minted, at),
    ensures
        unused_by_nodes(nodes, minted, at, u64::MAX as nat) is Some,
{
    if unused_by_nodes(nodes, minted, at, u64::MAX as nat) is None {
        taken_nodes(nodes, minted, at, u64::MAX as nat);
        let ids = Seq::new(nodes.len(), |i: int| nodes[i].id@);
        some_is_not_among(minted, at, ids);
        let i = choose|i: int| at <= i < at + u64::MAX && !ids.contains(#[trigger] minted(i));
        assert(node_uses(nodes, minted(i)));
        let k = choose|k: int| 0 <= k < nodes.len() && (#[trigger] nodes[k]).id@ == minted(i);
        assert(ids[k] == minted(i));
    }
}

/// Where the identifiers that are minted differ, one of them is free for an edge.
pub proof fn some_identifier_is_free_for_an_edge(edges: Seq<EdgeModel>, minted: Minted, at: int)
    requires
        edges.len() < u64::MAX,
        minted_differ(minted, at),
    ensures
        unused_by_edges(edges, minted, at, u64::MAX as nat) is Some,
{
    if unused_by_edges(edges, minted, at, u64::MAX as nat) is None {
        taken_edges(edges, minted, at, u64::MAX as nat);
        let ids = Seq::new(edges.len(), |i: int| edges[i].id@);
        some_is_not_among(minted, at, ids);
        let i = choose|i: int| at <= i < at + u64::MAX && !ids.contains(#[trigger] minted(i));
        assert(edge_uses(edges, minted(i)));
        let k = choose|k: int| 0 <= k < edges.len() && (#[trigger] edges[k]).id@ == minted(i);
        assert(ids[k] == minted(i));
    }
}

/// Creating a node succeeds where it is new, its labels are names, its values can be stored,
/// and the identifiers that are minted differ.
pub proof fn well_formed_node_is_created(
    state: Written,
    pattern: NodePattern,
    values: Seq<(Seq<char>, QueryModel)>,
    range: SourceRange,
    minted: Minted,
)
    requires
        bound_to(state.scope, pattern.variable) is None,
        pattern.labels@.len() > 0,
        labels_made(pattern.labels@, 0, range, Seq::empty()) is Ok,
        stored_map(values, 0, range, Seq::empty()) is Ok,
        state.graph.nodes.len() < u64::MAX,
        minted_differ(minted, state.used),
    ensures
        node_created(state, pattern, values, range, minted).1 is Ok,
{
    some_identifier_is_free_for_a_node(state.graph.nodes, minted, state.used);
}

/// A sequential minter always comes to an identifier that no node has: what it issues differs,
/// and a graph holds fewer nodes than it can issue.
pub proof fn sequential_minter_is_never_spent(
    before: Minter,
    after: Minter,
    nodes: Seq<NodeModel>,
    minted: Minted,
)
    requires
        before.counter() is Some,
        nodes.len() < u64::MAX,
        Minter::issued_all(before, after, Seq::new(u64::MAX as nat, minted)),
    ensures
        unused_by_nodes(nodes, minted, 0, u64::MAX as nat) is Some,
{
    let issued = Seq::new(u64::MAX as nat, minted);
    assert forall|i: int, j: int| 0 <= i < j < u64::MAX implies #[trigger] minted(i)
        != #[trigger] minted(j) by {
        Minter::sequential_issues_differ(before, after, issued, i, j);
        assert(issued[i] == minted(i) && issued[j] == minted(j));
    }
    some_identifier_is_free_for_a_node(nodes, minted, 0);
}

/// A write adds to who contributed to a record and takes nobody out.
pub proof fn other_contributions_stay(change: Option<Change>, entries: Seq<ContributionModel>)
    ensures
        entries.is_prefix_of(owned_after(change, entries)),
        owned_after(change, entries).len() <= entries.len() + 1,
{
    let after = owned_after(change, entries);
    assert(entries =~= after.subrange(0, entries.len() as int));
}

proof fn other_label_stays(labels: Seq<Seq<char>>, label: Seq<char>, count: int, i: int)
    requires
        0 <= i < count <= labels.len(),
        labels[i] != label,
    ensures
        without_label(labels, label, count).len() > 0,
    decreases count,
{
    if i < count - 1 {
        other_label_stays(labels, label, count - 1, i);
    }
}

/// Removing a label leaves every node with one, where no node had a label twice.
pub proof fn removal_keeps_a_label(
    graph: GraphModel,
    summary: WriteSummary,
    item: RemoveItem,
    variable: Seq<char>,
    bound: QueryModel,
    range: SourceRange,
)
    requires
        forall|i: int|
            0 <= i < graph.nodes.len() ==> (#[trigger] graph.nodes[i]).labels.len() > 0
                && graph.nodes[i].labels.no_duplicates(),
    ensures
        removed(graph, summary, item, variable, bound, range) matches Ok((after, _)) ==> forall|
            i: int,
        |
            0 <= i < after.nodes.len() ==> (#[trigger] after.nodes[i]).labels.len() > 0,
{
    place_fits(graph, variable, bound, range);
    if let RemoveItem::Label { label, .. } = item {
        if let Ok(Place::Node(at)) = place_of(graph, variable, bound, range) {
            let labels = graph.nodes[at].labels;
            if labels.len() > 1 {
                if labels[0] != label@ {
                    other_label_stays(labels, label@, labels.len() as int, 0);
                } else {
                    assert(labels[1] != labels[0]);
                    other_label_stays(labels, label@, labels.len() as int, 1);
                }
            } else if labels[0] != label@ {
                other_label_stays(labels, label@, labels.len() as int, 0);
            } else {
                assert(labels.contains(label@));
            }
        }
    }
}

} // verus!
