//! The `nostdb` namespace: procedures called with `CALL`, and functions.
//!
//! Behavior of this database lives in a namespace rather than in new syntax, so the query
//! language itself stays openCypher-compatible.
//!
//! # An unknown name is refused, never guessed
//!
//! Calling something outside the registry is [`DiagnosticCode::CypherSemanticError`]: an
//! unknown procedure will not become known by retrying. A registered procedure this build
//! cannot run because it lacks a capability is [`DiagnosticCode::CypherUnsupported`],
//! because the same call against a more complete build succeeds.

use crate::contribution::Contribution;
use crate::contribution::ContributionModel;
use crate::cypher::lower_text;
use crate::cypher::meaningless;
use crate::cypher::semantic;
use crate::cypher::QueryError;
use crate::cypher::QueryErrorModel;
use crate::decimal::lowered;
use crate::diagnostic::DiagnosticCode;
use crate::evidence::widened_score;
use crate::evidence::Confidence;
use crate::evidence::Evidence;
use crate::evidence::EvidenceMethod;
use crate::evidence::EvidenceModel;
use crate::evidence::SourcePosition;
use crate::evidence::SourceRange;
use crate::generation::Generation;
use crate::graph::Edge;
use crate::graph::EdgeModel;
use crate::graph::Graph;
use crate::graph::GraphModel;
use crate::graph::Node;
use crate::graph::NodeModel;
use crate::id::LocalEdgeId;
use crate::id::LocalNodeId;
use crate::link::LinkModel;
use crate::locator::scheme_of;
use crate::locator::CanonicalSourceLocator;
use crate::number::digits_of;
use crate::number::show_unsigned;
use crate::property::FiniteF64;
use crate::text::joined;
use crate::text::same;
use crate::text::view_of;
use crate::text::views;
use crate::text::NonEmptyText;
use crate::value::QueryModel;
use crate::value::QueryValue;
use vstd::prelude::*;
use vstd::string::StringExecFns;

verus! {

/// Most evidence rows one `nostdb.evidence` call yields.
///
/// A database file is untrusted input, so walking an unbounded number of stored records
/// would hand the query's memory budget to whoever wrote the file.
pub const EVIDENCE_ROW_LIMIT: usize = 256;

/// The namespace prefix everything here shares.
pub const NAMESPACE: &'static str = "nostdb.";

/// Every function of the namespace.
pub const FUNCTIONS: [&'static str; 5] = [
    "nostdb.source",
    "nostdb.source_location",
    "nostdb.source_revision",
    "nostdb.link_alias",
    "nostdb.is_available",
];

/// What a query knows about the database beyond its graph.
///
/// Both fields are optional because a caller may execute against a graph that is not a
/// file. A procedure that needs one reports `null` rather than inventing a value.
#[derive(Debug, PartialEq, Eq)]
pub struct DatabaseContext {
    /// The generation the graph was read at.
    pub generation: Option<Generation>,
    /// The canonical locator of the database holding the graph.
    pub source: Option<CanonicalSourceLocator>,
}

/// What a query knows about the database beyond its graph.
pub struct ContextModel {
    /// The generation the graph was read at.
    pub generation: Option<u64>,
    /// The canonical locator of the database holding the graph.
    pub source: Option<Seq<char>>,
}

impl View for DatabaseContext {
    type V = ContextModel;

    open spec fn view(&self) -> ContextModel {
        ContextModel { generation: view_of(self.generation), source: view_of(self.source) }
    }
}

impl Default for DatabaseContext {
    fn default() -> (none: Self)
        ensures
            none@ == (ContextModel { generation: None, source: None }),
    {
        DatabaseContext { generation: None, source: None }
    }
}

impl Clone for DatabaseContext {
    fn clone(&self) -> (copy: Self)
        ensures
            copy@ == self@,
    {
        DatabaseContext {
            generation: self.generation,
            source: match &self.source {
                Some(source) => Some(source.clone()),
                None => None,
            },
        }
    }
}

/// A procedure in the `nostdb` namespace.
#[derive(Clone, Debug, PartialEq, Eq)]
pub struct Procedure {
    /// The dotted name it is called by.
    pub name: &'static str,
    /// Its columns, in order.
    pub columns: Vec<&'static str>,
    /// How many arguments it takes.
    pub arguments: usize,
    /// The capability it needs, when this build does not have one.
    pub capability: Option<&'static str>,
}

/// What a procedure is.
pub struct ProcedureModel {
    /// The dotted name it is called by.
    pub name: Seq<char>,
    /// Its columns, in order.
    pub columns: Seq<Seq<char>>,
    /// How many arguments it takes.
    pub arguments: nat,
    /// The capability it needs, when this build does not have one.
    pub capability: Option<Seq<char>>,
}

/// The texts of borrowed strings.
pub open spec fn texts_of(items: Seq<&'static str>) -> Seq<Seq<char>> {
    Seq::new(items.len(), |i: int| items[i]@)
}

impl View for Procedure {
    type V = ProcedureModel;

    open spec fn view(&self) -> ProcedureModel {
        ProcedureModel {
            name: self.name@,
            columns: texts_of(self.columns@),
            arguments: self.arguments as nat,
            capability: match self.capability {
                Some(text) => Some(text@),
                None => None,
            },
        }
    }
}

/// `nostdb.links`.
pub open spec fn links_procedure() -> ProcedureModel {
    ProcedureModel {
        name: "nostdb.links"@,
        columns: seq!["source"@, "alias"@, "remote"@],
        arguments: 0,
        capability: None,
    }
}

/// `nostdb.build_status`.
pub open spec fn status_procedure() -> ProcedureModel {
    ProcedureModel {
        name: "nostdb.build_status"@,
        columns: seq!["database_generation"@, "nodes"@, "edges"@, "links"@],
        arguments: 0,
        capability: None,
    }
}

/// `nostdb.evidence`.
pub open spec fn evidence_procedure() -> ProcedureModel {
    ProcedureModel {
        name: "nostdb.evidence"@,
        columns: seq![
            "source"@,
            "path"@,
            "revision"@,
            "digest"@,
            "producer"@,
            "producer_version"@,
            "method"@,
            "confidence"@,
            "score"@,
            "start_line"@,
            "start_column"@,
            "end_line"@,
            "end_column"@,
        ],
        arguments: 1,
        capability: None,
    }
}

/// `nostdb.refresh_links`, which needs to resolve and fetch what a link names.
pub open spec fn refresh_procedure() -> ProcedureModel {
    ProcedureModel {
        name: "nostdb.refresh_links"@,
        columns: seq!["source"@, "refreshed"@, "revision"@],
        arguments: 0,
        capability: Some("a source provider"@),
    }
}

/// Every procedure of the namespace.
pub open spec fn all_procedures() -> Seq<ProcedureModel> {
    seq![links_procedure(), status_procedure(), evidence_procedure(), refresh_procedure()]
}

/// Every procedure of the namespace.
pub fn procedures() -> (all: Vec<Procedure>)
    ensures
        all@.len() == 4,
        views(all@) == all_procedures(),
{
    let links = Procedure {
        name: "nostdb.links",
        columns: vec!["source", "alias", "remote"],
        arguments: 0,
        capability: None,
    };
    assert(links@.columns =~= links_procedure().columns);
    let status = Procedure {
        name: "nostdb.build_status",
        columns: vec!["database_generation", "nodes", "edges", "links"],
        arguments: 0,
        capability: None,
    };
    assert(status@.columns =~= status_procedure().columns);
    let evidence = Procedure {
        name: "nostdb.evidence",
        columns: vec![
            "source",
            "path",
            "revision",
            "digest",
            "producer",
            "producer_version",
            "method",
            "confidence",
            "score",
            "start_line",
            "start_column",
            "end_line",
            "end_column",
        ],
        arguments: 1,
        capability: None,
    };
    assert(evidence@.columns =~= evidence_procedure().columns);
    let refresh = Procedure {
        name: "nostdb.refresh_links",
        columns: vec!["source", "refreshed", "revision"],
        arguments: 0,
        capability: Some("a source provider"),
    };
    assert(refresh@.columns =~= refresh_procedure().columns);
    let mut all: Vec<Procedure> = Vec::new();
    all.push(links);
    all.push(status);
    all.push(evidence);
    all.push(refresh);
    assert(views(all@) =~= all_procedures());
    all
}

/// The procedure a name is that of. Case does not count.
pub open spec fn procedure_named(name: Seq<char>) -> Option<ProcedureModel> {
    let lower = lowered(name);
    if lower == "nostdb.links"@ {
        Some(links_procedure())
    } else if lower == "nostdb.build_status"@ {
        Some(status_procedure())
    } else if lower == "nostdb.evidence"@ {
        Some(evidence_procedure())
    } else if lower == "nostdb.refresh_links"@ {
        Some(refresh_procedure())
    } else {
        None
    }
}

/// What is said of a name outside the registry.
pub open spec fn unknown_procedure(name: Seq<char>, range: SourceRange) -> QueryErrorModel {
    meaningless("unknown procedure `"@ + name + "`"@, range)
}

fn unknown(what: &str, name: &str, range: SourceRange) -> (error: QueryError)
    ensures
        error@ == meaningless(what@ + name@ + "`"@, range),
{
    let mut message = joined(what, name);
    message.append("`");
    semantic(message.as_str(), range)
}

/// Looks up a procedure by name.
///
/// A name outside the registry is [`DiagnosticCode::CypherSemanticError`].
pub fn lookup(name: &str, range: SourceRange) -> (found: Result<Procedure, QueryError>)
    ensures
        match found {
            Ok(procedure) => procedure_named(name@) == Some(procedure@),
            Err(error) => procedure_named(name@) is None && error@ == unknown_procedure(
                name@,
                range,
            ),
        },
{
    let mut all = procedures();
    let ghost models = views(all@);
    assert(models[0] == all@[0]@ && models[1] == all@[1]@ && models[2] == all@[2]@ && models[3]
        == all@[3]@);
    let lower = lower_text(name);
    let text = lower.as_str();
    if same(text, "nostdb.links") {
        Ok(all.swap_remove(0))
    } else if same(text, "nostdb.build_status") {
        Ok(all.swap_remove(1))
    } else if same(text, "nostdb.evidence") {
        Ok(all.swap_remove(2))
    } else if same(text, "nostdb.refresh_links") {
        Ok(all.swap_remove(3))
    } else {
        Err(unknown("unknown procedure `", name, range))
    }
}

// -- Rows --------------------------------------------------------------------------

/// A text, or null where there is none.
pub open spec fn optional_text_model(text: Option<Seq<char>>) -> QueryModel {
    match text {
        Some(found) => QueryModel::Text(found),
        None => QueryModel::Null,
    }
}

/// The row of a link.
pub open spec fn link_row(link: LinkModel) -> Seq<QueryModel> {
    seq![
        QueryModel::Text(link.source),
        optional_text_model(link.alias),
        QueryModel::Boolean(scheme_of(link.source) is Some),
    ]
}

/// The row of the build status.
pub open spec fn status_row(graph: GraphModel, context: ContextModel) -> Seq<QueryModel> {
    seq![
        match context.generation {
            Some(generation) => QueryModel::Integer(generation as i64),
            None => QueryModel::Null,
        },
        QueryModel::Integer(graph.nodes.len() as i64),
        QueryModel::Integer(graph.edges.len() as i64),
        QueryModel::Integer(graph.links.len() as i64),
    ]
}

/// What a method is called.
pub open spec fn method_text(method: EvidenceMethod) -> Seq<char> {
    match method {
        EvidenceMethod::Deterministic => "deterministic"@,
        EvidenceMethod::AiInferred => "ai_inferred"@,
        EvidenceMethod::UserDeclared => "user_declared"@,
    }
}

/// What a confidence is called.
pub open spec fn confidence_text(confidence: Confidence) -> Seq<char> {
    match confidence {
        Confidence::Extracted => "extracted"@,
        Confidence::Inferred { .. } => "inferred"@,
        Confidence::Ambiguous { .. } => "ambiguous"@,
    }
}

/// The score of a confidence, or null where it has none.
pub open spec fn score_model(confidence: Confidence) -> QueryModel {
    match confidence {
        Confidence::Extracted => QueryModel::Null,
        Confidence::Inferred { score } => QueryModel::Float(widened_score(score@)),
        Confidence::Ambiguous { score } => QueryModel::Float(widened_score(score@)),
    }
}

/// The line of a position, or null where there is none.
pub open spec fn line_model(position: Option<SourcePosition>) -> QueryModel {
    match position {
        Some(found) => QueryModel::Integer(found.line as i64),
        None => QueryModel::Null,
    }
}

/// The column of a position, or null where there is none.
pub open spec fn column_model(position: Option<SourcePosition>) -> QueryModel {
    match position {
        Some(found) => QueryModel::Integer(found.column as i64),
        None => QueryModel::Null,
    }
}

/// Where an optional range starts.
pub open spec fn start_of(range: Option<SourceRange>) -> Option<SourcePosition> {
    match range {
        Some(found) => Some(found.from()),
        None => None,
    }
}

/// Where an optional range ends.
pub open spec fn end_of(range: Option<SourceRange>) -> Option<SourcePosition> {
    match range {
        Some(found) => Some(found.to()),
        None => None,
    }
}

/// The row of a piece of evidence: stored metadata, never source content.
pub open spec fn evidence_row(item: EvidenceModel) -> Seq<QueryModel> {
    seq![
        QueryModel::Text(item.source),
        optional_text_model(item.path),
        optional_text_model(item.resolved_revision),
        QueryModel::Text(item.content_digest),
        QueryModel::Text(item.producer),
        QueryModel::Text(item.producer_version),
        QueryModel::Text(method_text(item.method)),
        QueryModel::Text(confidence_text(item.confidence)),
        score_model(item.confidence),
        line_model(start_of(item.range)),
        column_model(start_of(item.range)),
        line_model(end_of(item.range)),
        column_model(end_of(item.range)),
    ]
}

/// The evidence of the first `count` contributions.
pub open spec fn evidence_in(entries: Seq<ContributionModel>, count: int) -> Seq<EvidenceModel>
    decreases count,
{
    if count <= 0 {
        Seq::empty()
    } else {
        evidence_in(entries, count - 1) + entries[count - 1].evidence
    }
}

/// The first node with an identifier, from `at` on.
pub open spec fn node_at(nodes: Seq<NodeModel>, id: LocalNodeId, at: int) -> Option<int>
    decreases nodes.len() - at,
{
    if at < 0 || at >= nodes.len() {
        None
    } else if nodes[at].id == id {
        Some(at)
    } else {
        node_at(nodes, id, at + 1)
    }
}

/// The first edge with an identifier, from `at` on.
pub open spec fn edge_at(edges: Seq<EdgeModel>, id: LocalEdgeId, at: int) -> Option<int>
    decreases edges.len() - at,
{
    if at < 0 || at >= edges.len() {
        None
    } else if edges[at].id == id {
        Some(at)
    } else {
        edge_at(edges, id, at + 1)
    }
}

/// The contributions of a bound record, or `None` where the value is no record and not
/// null. A record the graph does not hold has none.
pub open spec fn contributions_of(bound: QueryModel, graph: GraphModel) -> Option<
    Seq<ContributionModel>,
> {
    match bound {
        QueryModel::Node(handle) => match node_at(graph.nodes, handle.id, 0) {
            Some(at) => Some(graph.nodes[at].contributions),
            None => Some(Seq::empty()),
        },
        QueryModel::Relationship(handle) => match edge_at(graph.edges, handle.id, 0) {
            Some(at) => Some(graph.edges[at].contributions),
            None => Some(Seq::empty()),
        },
        QueryModel::Null => Some(Seq::empty()),
        _ => None,
    }
}

/// The first rows of evidence, as many as one call yields.
pub open spec fn evidence_rows_of(items: Seq<EvidenceModel>) -> Seq<Seq<QueryModel>> {
    Seq::new(
        if items.len() > 256 {
            256
        } else {
            items.len()
        },
        |i: int| evidence_row(items[i]),
    )
}

/// What a procedure says of an argument that is no record.
pub open spec fn not_a_record(name: Seq<char>, bound: QueryModel, range: SourceRange) -> QueryErrorModel {
    meaningless(
        "`"@ + name + "` takes a node or a relationship, and was given "@ + bound.kind(),
        range,
    )
}

/// What running a procedure yields: one row per result, in its column order.
pub open spec fn procedure_rows(
    procedure: ProcedureModel,
    arguments: Seq<QueryModel>,
    graph: GraphModel,
    context: ContextModel,
    range: SourceRange,
) -> Result<Seq<Seq<QueryModel>>, QueryErrorModel> {
    if procedure.capability is Some {
        Err(
            QueryErrorModel {
                code: DiagnosticCode::CypherUnsupported,
                message: "`"@ + procedure.name + "` needs "@ + procedure.capability->0
                    + ", which this build does not have"@,
                range,
            },
        )
    } else if arguments.len() != procedure.arguments {
        Err(
            meaningless(
                "`"@ + procedure.name + "` takes "@ + digits_of(procedure.arguments)
                    + " argument(s), and "@ + digits_of(arguments.len()) + " were given"@,
                range,
            ),
        )
    } else if procedure.name == "nostdb.links"@ {
        Ok(Seq::new(graph.links.len(), |i: int| link_row(graph.links[i])))
    } else if procedure.name == "nostdb.build_status"@ {
        Ok(seq![status_row(graph, context)])
    } else if procedure.name == "nostdb.evidence"@ && arguments.len() > 0 {
        match contributions_of(arguments[0], graph) {
            Some(entries) => Ok(evidence_rows_of(evidence_in(entries, entries.len() as int))),
            None => Err(not_a_record("nostdb.evidence"@, arguments[0], range)),
        }
    } else {
        Err(unknown_procedure(procedure.name, range))
    }
}

/// The models of rows.
pub open spec fn row_models(rows: Seq<Vec<QueryValue>>) -> Seq<Seq<QueryModel>> {
    Seq::new(rows.len(), |i: int| views(rows[i]@))
}

/// One more row is one more model.
pub proof fn row_models_push(rows: Seq<Vec<QueryValue>>, row: Vec<QueryValue>)
    ensures
        row_models(rows.push(row)) == row_models(rows).push(views(row@)),
{
    assert(row_models(rows.push(row)) =~= row_models(rows).push(views(row@)));
}

fn text(value: &str) -> (made: QueryValue)
    ensures
        made@ == QueryModel::Text(value@),
{
    QueryValue::Text(value.to_owned())
}

fn optional_nonempty(value: &Option<NonEmptyText>) -> (made: QueryValue)
    ensures
        made@ == optional_text_model(view_of(*value)),
{
    match value {
        Some(found) => text(found.as_str()),
        None => QueryValue::Null,
    }
}

fn line(position: Option<SourcePosition>) -> (made: QueryValue)
    ensures
        made@ == line_model(position),
{
    match position {
        Some(found) => QueryValue::Integer(found.line as i64),
        None => QueryValue::Null,
    }
}

fn column(position: Option<SourcePosition>) -> (made: QueryValue)
    ensures
        made@ == column_model(position),
{
    match position {
        Some(found) => QueryValue::Integer(found.column as i64),
        None => QueryValue::Null,
    }
}

fn method_name(method: EvidenceMethod) -> (name: &'static str)
    ensures
        name@ == method_text(method),
{
    match method {
        EvidenceMethod::Deterministic => "deterministic",
        EvidenceMethod::AiInferred => "ai_inferred",
        EvidenceMethod::UserDeclared => "user_declared",
    }
}

fn confidence_name(confidence: &Confidence) -> (name: &'static str)
    ensures
        name@ == confidence_text(*confidence),
{
    match confidence {
        Confidence::Extracted => "extracted",
        Confidence::Inferred { .. } => "inferred",
        Confidence::Ambiguous { .. } => "ambiguous",
    }
}

fn score_value(confidence: &Confidence) -> (value: QueryValue)
    ensures
        value@ == score_model(*confidence),
{
    match confidence.score() {
        Some(score) => match FiniteF64::new(score.wide()) {
            Ok(number) => QueryValue::Float(number),
            Err(_) => QueryValue::Null,
        },
        None => QueryValue::Null,
    }
}

fn row_of_evidence(item: &Evidence) -> (row: Vec<QueryValue>)
    ensures
        views(row@) == evidence_row(item@),
{
    let (start, end) = match item.range {
        Some(range) => (Some(range.start()), Some(range.end())),
        None => (None, None),
    };
    let mut row: Vec<QueryValue> = Vec::new();
    row.push(text(item.source.as_str()));
    row.push(optional_nonempty(&item.path));
    row.push(optional_nonempty(&item.resolved_revision));
    row.push(text(item.content_digest.as_str()));
    row.push(text(item.producer.as_str()));
    row.push(text(item.producer_version.as_str()));
    row.push(text(method_name(item.method)));
    row.push(text(confidence_name(&item.confidence)));
    row.push(score_value(&item.confidence));
    row.push(line(start));
    row.push(column(start));
    row.push(line(end));
    row.push(column(end));
    assert(views(row@) =~= evidence_row(item@));
    row
}

fn row_of_link(link: &crate::link::Link) -> (row: Vec<QueryValue>)
    ensures
        views(row@) == link_row(link@),
{
    let mut row: Vec<QueryValue> = Vec::new();
    row.push(text(link.source.as_str()));
    row.push(
        match &link.alias {
            Some(alias) => text(alias.as_str()),
            None => QueryValue::Null,
        },
    );
    row.push(QueryValue::Boolean(link.is_remote()));
    assert(views(row@) =~= link_row(link@));
    row
}

fn row_of_status(graph: &Graph, context: &DatabaseContext) -> (row: Vec<QueryValue>)
    ensures
        views(row@) == status_row(graph@, context@),
{
    let mut row: Vec<QueryValue> = Vec::new();
    row.push(
        match context.generation {
            Some(generation) => QueryValue::Integer(generation.get() as i64),
            None => QueryValue::Null,
        },
    );
    row.push(QueryValue::Integer(graph.nodes.len() as i64));
    row.push(QueryValue::Integer(graph.edges.len() as i64));
    row.push(QueryValue::Integer(graph.links.len() as i64));
    assert(views(row@) =~= status_row(graph@, context@));
    row
}

pub(crate) fn node_of(graph: &Graph, id: LocalNodeId) -> (found: Option<&Node>)
    ensures
        match found {
            Some(node) => node_at(graph@.nodes, id, 0) matches Some(at) && graph@.nodes[at]
                == node@,
            None => node_at(graph@.nodes, id, 0) is None,
        },
{
    let mut at: usize = 0;
    while at < graph.nodes.len()
        invariant
            at <= graph.nodes@.len(),
            node_at(graph@.nodes, id, 0) == node_at(graph@.nodes, id, at as int),
        decreases graph.nodes@.len() - at,
    {
        assert(graph@.nodes[at as int] == graph.nodes@[at as int]@);
        if graph.nodes[at].id.same(&id) {
            proof {
                LocalNodeId::same_bytes(graph.nodes@[at as int].id, id);
            }
            return Some(&graph.nodes[at]);
        }
        at = at + 1;
    }
    None
}

pub(crate) fn edge_of(graph: &Graph, id: LocalEdgeId) -> (found: Option<&Edge>)
    ensures
        match found {
            Some(edge) => edge_at(graph@.edges, id, 0) matches Some(at) && graph@.edges[at]
                == edge@,
            None => edge_at(graph@.edges, id, 0) is None,
        },
{
    let mut at: usize = 0;
    while at < graph.edges.len()
        invariant
            at <= graph.edges@.len(),
            edge_at(graph@.edges, id, 0) == edge_at(graph@.edges, id, at as int),
        decreases graph.edges@.len() - at,
    {
        assert(graph@.edges[at as int] == graph.edges@[at as int]@);
        if graph.edges[at].id.same(&id) {
            proof {
                LocalEdgeId::same_bytes(graph.edges@[at as int].id, id);
            }
            return Some(&graph.edges[at]);
        }
        at = at + 1;
    }
    None
}

/// The contributions of a bound record.
enum Bound<'a> {
    /// A record, or null.
    Record(Option<&'a Vec<Contribution>>),
    /// Anything else.
    Other,
}

spec fn bound_model(bound: Bound) -> Option<Seq<ContributionModel>> {
    match bound {
        Bound::Record(None) => Some(Seq::empty()),
        Bound::Record(Some(entries)) => Some(views(entries@)),
        Bound::Other => None,
    }
}

fn bound_record<'a>(bound: &QueryValue, graph: &'a Graph) -> (found: Bound<'a>)
    ensures
        bound_model(found) == contributions_of(bound@, graph@),
{
    match bound {
        QueryValue::Node(handle) => match node_of(graph, handle.id) {
            Some(node) => Bound::Record(Some(&node.contributions)),
            None => Bound::Record(None),
        },
        QueryValue::Relationship(handle) => match edge_of(graph, handle.id) {
            Some(edge) => Bound::Record(Some(&edge.contributions)),
            None => Bound::Record(None),
        },
        QueryValue::Null => Bound::Record(None),
        _ => Bound::Other,
    }
}

/// The rows of the evidence of contributions, bounded by [`EVIDENCE_ROW_LIMIT`].
fn rows_of_evidence(entries: &Vec<Contribution>) -> (rows: Vec<Vec<QueryValue>>)
    ensures
        row_models(rows@) == evidence_rows_of(
            evidence_in(views(entries@), entries@.len() as int),
        ),
{
    let ghost models = views(entries@);
    let ghost all = evidence_in(models, entries@.len() as int);
    let mut rows: Vec<Vec<QueryValue>> = Vec::new();
    let mut at: usize = 0;
    while at < entries.len()
        invariant
            at <= entries@.len(),
            models == views(entries@),
            row_models(rows@) =~= evidence_rows_of(evidence_in(models, at as int)),
        decreases entries@.len() - at,
    {
        assert(models[at as int] == entries@[at as int]@);
        let evidence = &entries[at].evidence;
        let ghost before = evidence_in(models, at as int);
        let ghost own = views(evidence@);
        let mut item: usize = 0;
        assert(before + own.take(0) =~= before);
        while item < evidence.len()
            invariant
                item <= evidence@.len(),
                own == views(evidence@),
                row_models(rows@) =~= evidence_rows_of(before + own.take(item as int)),
            decreases evidence@.len() - item,
        {
            assert(own[item as int] == evidence@[item as int]@);
            assert((before + own.take(item as int)).push(own[item as int]) =~= before + own.take(
                item + 1,
            ));
            if rows.len() < EVIDENCE_ROW_LIMIT {
                let row = row_of_evidence(&evidence[item]);
                proof {
                    row_models_push(rows@, row);
                }
                rows.push(row);
            }
            item = item + 1;
        }
        assert(own.take(own.len() as int) =~= own);
        at = at + 1;
    }
    rows
}

fn wrong_argument(name: &str, bound: &QueryValue, range: SourceRange) -> (error: QueryError)
    ensures
        error@ == not_a_record(name@, bound@, range),
{
    let mut message = joined("`", name);
    message.append("` takes a node or a relationship, and was given ");
    message.append(bound.kind_name());
    semantic(message.as_str(), range)
}

/// Runs a procedure, returning one row per result in the procedure's column order.
///
/// A procedure that needs a capability this build lacks is refused with
/// [`DiagnosticCode::CypherUnsupported`]; a wrong argument count or an argument of the
/// wrong kind with [`DiagnosticCode::CypherSemanticError`].
pub fn run(
    procedure: &Procedure,
    arguments: &[QueryValue],
    graph: &Graph,
    context: &DatabaseContext,
    range: SourceRange,
) -> (made: Result<Vec<Vec<QueryValue>>, QueryError>)
    ensures
        match made {
            Ok(rows) => procedure_rows(
                procedure@,
                views(arguments@),
                graph@,
                context@,
                range,
            ) matches Ok(model) && model == row_models(rows@),
            Err(error) => procedure_rows(
                procedure@,
                views(arguments@),
                graph@,
                context@,
                range,
            ) matches Err(wrong) && wrong == error@,
        },
{
    match procedure.capability {
        Some(capability) => {
            let mut message = joined("`", procedure.name);
            message.append("` needs ");
            message.append(capability);
            message.append(", which this build does not have");
            return Err(QueryError::at(DiagnosticCode::CypherUnsupported, message, range));
        }
        None => {}
    }
    if arguments.len() != procedure.arguments {
        let mut message = joined("`", procedure.name);
        message.append("` takes ");
        message.append(show_unsigned(procedure.arguments as u64).as_str());
        message.append(" argument(s), and ");
        message.append(show_unsigned(arguments.len() as u64).as_str());
        message.append(" were given");
        return Err(semantic(message.as_str(), range));
    }
    if same(procedure.name, "nostdb.links") {
        let ghost models = graph@.links;
        let ghost all = Seq::new(models.len(), |i: int| link_row(models[i]));
        let mut rows: Vec<Vec<QueryValue>> = Vec::new();
        let mut at: usize = 0;
        while at < graph.links.len()
            invariant
                at <= graph.links@.len(),
                models == graph@.links,
                all == Seq::new(models.len(), |i: int| link_row(models[i])),
                row_models(rows@) =~= all.take(at as int),
            decreases graph.links@.len() - at,
        {
            assert(models[at as int] == graph.links@[at as int]@);
            let row = row_of_link(&graph.links[at]);
            proof {
                row_models_push(rows@, row);
            }
            rows.push(row);
            at = at + 1;
        }
        assert(all.take(all.len() as int) =~= all);
        assert(all =~= Seq::new(graph@.links.len(), |i: int| link_row(graph@.links[i])));
        Ok(rows)
    } else if same(procedure.name, "nostdb.build_status") {
        let mut rows: Vec<Vec<QueryValue>> = Vec::new();
        rows.push(row_of_status(graph, context));
        assert(row_models(rows@) =~= seq![status_row(graph@, context@)]);
        Ok(rows)
    } else if same(procedure.name, "nostdb.evidence") && arguments.len() > 0 {
        assert(views(arguments@)[0] == arguments@[0]@);
        match bound_record(&arguments[0], graph) {
            Bound::Record(Some(entries)) => Ok(rows_of_evidence(entries)),
            Bound::Record(None) => {
                let rows: Vec<Vec<QueryValue>> = Vec::new();
                assert(row_models(rows@) =~= evidence_rows_of(
                    evidence_in(Seq::<ContributionModel>::empty(), 0),
                ));
                Ok(rows)
            }
            Bound::Other => Err(wrong_argument("nostdb.evidence", &arguments[0], range)),
        }
    } else {
        Err(unknown("unknown procedure `", procedure.name, range))
    }
}

// -- Functions ---------------------------------------------------------------------

/// Whether a name, in lower case, is that of a function of the namespace.
pub open spec fn function_name(lower: Seq<char>) -> bool {
    ||| lower == "nostdb.source"@
    ||| lower == "nostdb.source_location"@
    ||| lower == "nostdb.source_revision"@
    ||| lower == "nostdb.link_alias"@
    ||| lower == "nostdb.is_available"@
}

/// The first piece of evidence of the first contribution.
pub open spec fn first_evidence(entries: Seq<ContributionModel>) -> Option<EvidenceModel> {
    if entries.len() > 0 && entries[0].evidence.len() > 0 {
        Some(entries[0].evidence[0])
    } else {
        None
    }
}

/// What a function of the namespace yields. Each describes the record that a value denotes,
/// so of null it yields null.
pub open spec fn function_value(
    name: Seq<char>,
    arguments: Seq<QueryModel>,
    graph: GraphModel,
    context: ContextModel,
    range: SourceRange,
) -> Result<QueryModel, QueryErrorModel> {
    let lower = lowered(name);
    if !function_name(lower) {
        Err(meaningless("unknown function `"@ + name + "`"@, range))
    } else if arguments.len() != 1 {
        Err(
            meaningless(
                "`"@ + name + "` takes one argument, and "@ + digits_of(arguments.len())
                    + " were given"@,
                range,
            ),
        )
    } else if arguments[0] is Null {
        Ok(QueryModel::Null)
    } else {
        match contributions_of(arguments[0], graph) {
            None => Err(not_a_record(name, arguments[0], range)),
            Some(entries) => Ok(
                if lower == "nostdb.source"@ {
                    optional_text_model(context.source)
                } else if lower == "nostdb.source_location"@ {
                    match first_evidence(entries) {
                        Some(item) => optional_text_model(item.path),
                        None => QueryModel::Null,
                    }
                } else if lower == "nostdb.source_revision"@ {
                    match first_evidence(entries) {
                        Some(item) => optional_text_model(item.resolved_revision),
                        None => QueryModel::Null,
                    }
                } else if lower == "nostdb.link_alias"@ {
                    QueryModel::Null
                } else {
                    QueryModel::Boolean(true)
                },
            ),
        }
    }
}

/// Evaluates a function in the namespace.
///
/// An unknown name, a wrong argument count, and an argument that is neither a record nor
/// null are refused with [`DiagnosticCode::CypherSemanticError`].
pub fn function(
    name: &str,
    arguments: &[QueryValue],
    graph: &Graph,
    context: &DatabaseContext,
    range: SourceRange,
) -> (made: Result<QueryValue, QueryError>)
    ensures
        match made {
            Ok(value) => function_value(
                name@,
                views(arguments@),
                graph@,
                context@,
                range,
            ) matches Ok(model) && model == value@,
            Err(error) => function_value(
                name@,
                views(arguments@),
                graph@,
                context@,
                range,
            ) matches Err(wrong) && wrong == error@,
        },
{
    let lower = lower_text(name);
    let word = lower.as_str();
    let source = same(word, "nostdb.source");
    let location = same(word, "nostdb.source_location");
    let revision = same(word, "nostdb.source_revision");
    let alias = same(word, "nostdb.link_alias");
    let available = same(word, "nostdb.is_available");
    if !(source || location || revision || alias || available) {
        return Err(unknown("unknown function `", name, range));
    }
    if arguments.len() != 1 {
        let mut message = joined("`", name);
        message.append("` takes one argument, and ");
        message.append(show_unsigned(arguments.len() as u64).as_str());
        message.append(" were given");
        return Err(semantic(message.as_str(), range));
    }
    assert(views(arguments@)[0] == arguments@[0]@);
    match &arguments[0] {
        QueryValue::Null => {
            return Ok(QueryValue::Null);
        }
        _ => {}
    }
    let first: Option<&Evidence> = match bound_record(&arguments[0], graph) {
        Bound::Record(Some(entries)) => {
            if entries.len() > 0 {
                assert(views(entries@)[0] == entries@[0]@);
                if entries[0].evidence.len() > 0 {
                    assert(views(entries@[0].evidence@)[0] == entries@[0].evidence@[0]@);
                    Some(&entries[0].evidence[0])
                } else {
                    None
                }
            } else {
                None
            }
        }
        Bound::Record(None) => None,
        Bound::Other => {
            return Err(wrong_argument(name, &arguments[0], range));
        }
    };
    if source {
        match &context.source {
            Some(found) => Ok(text(found.as_str())),
            None => Ok(QueryValue::Null),
        }
    } else if location {
        match first {
            Some(item) => Ok(optional_nonempty(&item.path)),
            None => Ok(QueryValue::Null),
        }
    } else if revision {
        match first {
            Some(item) => Ok(optional_nonempty(&item.resolved_revision)),
            None => Ok(QueryValue::Null),
        }
    } else if alias {
        Ok(QueryValue::Null)
    } else {
        Ok(QueryValue::Boolean(true))
    }
}

// -- Laws --------------------------------------------------------------------------

/// One call of `nostdb.evidence` never yields more rows than the limit, whatever the
/// record holds.
pub proof fn evidence_is_bounded(
    arguments: Seq<QueryModel>,
    graph: GraphModel,
    context: ContextModel,
    range: SourceRange,
)
    ensures
        procedure_rows(evidence_procedure(), arguments, graph, context, range) matches Ok(rows)
            ==> rows.len() <= EVIDENCE_ROW_LIMIT,
{
    reveal_strlit("nostdb.evidence");
    reveal_strlit("nostdb.links");
    reveal_strlit("nostdb.build_status");
}

/// Every row a registered procedure yields has one value for each of its columns.
pub proof fn rows_fit_columns(
    name: Seq<char>,
    arguments: Seq<QueryModel>,
    graph: GraphModel,
    context: ContextModel,
    range: SourceRange,
)
    ensures
        procedure_named(name) matches Some(procedure) ==> (procedure_rows(
            procedure,
            arguments,
            graph,
            context,
            range,
        ) matches Ok(rows) ==> forall|i: int|
            0 <= i < rows.len() ==> (#[trigger] rows[i]).len() == procedure.columns.len()),
{
    reveal_strlit("nostdb.evidence");
    reveal_strlit("nostdb.links");
    reveal_strlit("nostdb.build_status");
}

/// Null propagates: of null, every function of the namespace yields null rather than failing.
pub proof fn null_yields_null(
    name: Seq<char>,
    graph: GraphModel,
    context: ContextModel,
    range: SourceRange,
)
    requires
        function_name(lowered(name)),
    ensures
        function_value(name, seq![QueryModel::Null], graph, context, range) == Ok::<
            _,
            QueryErrorModel,
        >(QueryModel::Null),
{
}

} // verus!
