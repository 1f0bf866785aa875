//! The analysis packet that is sent instead of a repository.
//!
//! # Compact by construction
//!
//! A packet is built from one source unit and the units an edge reaches from it. Its size
//! is bounded by that unit's own contents and a fixed neighbour budget, so it does not grow
//! when the repository does.
//!
//! # Anchored on the unit a contribution names
//!
//! The source unit is the identity a contribution carries, so that what comes back for a
//! packet can be replaced exactly the way an analyzer's work is.
//!
//! # What a packet does not carry
//!
//! An excerpt is selected and bounded, and a whole file never travels. The edges that are
//! already established are summarized, so that a model can see them and is not asked to
//! find them again.

use crate::contribution::ContributionModel;
use crate::contribution::OwnerKind;
use crate::evidence::SourceRange;
use crate::graph::pairs;
use crate::graph::EdgeModel;
use crate::graph::Graph;
use crate::graph::GraphModel;
use crate::graph::Node;
use crate::graph::NodeModel;
use crate::graph::ReferenceModel;
use crate::id::bytes_precede;
use crate::id::LocalNodeId;
use crate::id::SourceUnitId;
use crate::nost::lexer::width;
use crate::procedure::node_at;
use crate::procedure::node_of;
use crate::property::PropertyModel;
use crate::property::PropertyValue;
use crate::property::ScalarModel;
use crate::text::characters;
use crate::text::same;
use crate::text::string_of;
use crate::text::view_of;
use crate::text::views;
use crate::text::views_push;
use vstd::prelude::*;
use vstd::utf8::char_is_scalar;
use vstd::utf8::encode_scalar;
use vstd::utf8::encode_utf8;

verus! {

/// Version of the packet contract.
pub const PACKET_VERSION: u32 = 1;

/// How many neighbouring units a packet may summarize.
pub const MAX_NEIGHBOURING_UNITS: usize = 8;

/// How many evidence excerpts a packet may carry.
pub const MAX_EVIDENCE_SPANS: usize = 16;

/// The longest excerpt, in bytes.
pub const MAX_EXCERPT_BYTES: usize = 2000;

/// One record the packet describes.
#[derive(Debug, PartialEq, Eq)]
pub struct SymbolSummary {
    /// The record.
    pub id: LocalNodeId,
    /// Its labels.
    pub labels: Vec<String>,
    /// Its name, when it has one.
    pub name: Option<String>,
    /// Where it is, when that is recorded.
    pub path: Option<String>,
}

/// What a packet says of one record.
pub struct SymbolModel {
    /// The record.
    pub id: LocalNodeId,
    /// Its labels.
    pub labels: Seq<Seq<char>>,
    /// Its name, when it has one.
    pub name: Option<Seq<char>>,
    /// Where it is, when that is recorded.
    pub path: Option<Seq<char>>,
}

impl View for SymbolSummary {
    type V = SymbolModel;

    open spec fn view(&self) -> SymbolModel {
        SymbolModel {
            id: self.id,
            labels: views(self.labels@),
            name: view_of(self.name),
            path: view_of(self.path),
        }
    }
}

/// One relation the packet describes.
#[derive(Debug, PartialEq, Eq)]
pub struct EdgeSummary {
    /// Where it starts.
    pub from: LocalNodeId,
    /// Where it ends.
    pub to: LocalNodeId,
    /// What it is.
    pub relation: String,
}

/// What a packet says of one relation.
pub struct RelationModel {
    /// Where it starts.
    pub from: LocalNodeId,
    /// Where it ends.
    pub to: LocalNodeId,
    /// What it is.
    pub relation: Seq<char>,
}

impl View for EdgeSummary {
    type V = RelationModel;

    open spec fn view(&self) -> RelationModel {
        RelationModel { from: self.from, to: self.to, relation: self.relation@ }
    }
}

/// A name that resolved to nothing.
#[derive(Debug, PartialEq, Eq)]
pub struct ReferenceSummary {
    /// The record that refers.
    pub from: LocalNodeId,
    /// The name it refers to.
    pub name: String,
}

impl View for ReferenceSummary {
    type V = (LocalNodeId, Seq<char>);

    open spec fn view(&self) -> (LocalNodeId, Seq<char>) {
        (self.from, self.name@)
    }
}

/// A bounded excerpt of source.
#[derive(Debug, PartialEq, Eq)]
pub struct SourceExcerpt {
    /// Which file.
    pub path: String,
    /// Where in it.
    pub range: SourceRange,
    /// The text, at most [`MAX_EXCERPT_BYTES`] of it in a packet.
    pub text: String,
    /// Whether the text was cut. Stated, so that nobody reasons about what stood behind the
    /// cut.
    pub truncated: bool,
}

/// What an excerpt says.
pub struct ExcerptModel {
    /// Which file.
    pub path: Seq<char>,
    /// Where in it.
    pub range: SourceRange,
    /// The text.
    pub text: Seq<char>,
    /// Whether the text was cut.
    pub truncated: bool,
}

impl View for SourceExcerpt {
    type V = ExcerptModel;

    open spec fn view(&self) -> ExcerptModel {
        ExcerptModel {
            path: self.path@,
            range: self.range,
            text: self.text@,
            truncated: self.truncated,
        }
    }
}

/// A unit reachable from the anchored one.
#[derive(Debug, PartialEq, Eq)]
pub struct SourceUnitSummary {
    /// The unit.
    pub source_unit: SourceUnitId,
    /// Its path, when one is recorded.
    pub path: Option<String>,
    /// How many records it holds.
    pub records: u64,
}

/// What a packet says of a reachable unit.
pub struct UnitModel {
    /// The unit.
    pub source_unit: SourceUnitId,
    /// Its path, when one is recorded.
    pub path: Option<Seq<char>>,
    /// How many records it holds.
    pub records: nat,
}

impl View for SourceUnitSummary {
    type V = UnitModel;

    open spec fn view(&self) -> UnitModel {
        UnitModel {
            source_unit: self.source_unit,
            path: view_of(self.path),
            records: self.records as nat,
        }
    }
}

/// A compact, versioned description of one source unit and its surroundings.
#[derive(Debug, PartialEq, Eq)]
pub struct AnalysisPacket {
    /// Version of the packet contract.
    pub packet_version: u32,
    /// The unit this packet is derived from, and that its results belong to.
    pub source_unit: SourceUnitId,
    /// The records that unit holds.
    pub symbols: Vec<SymbolSummary>,
    /// Relations among them, and to their neighbours.
    pub structural_edges: Vec<EdgeSummary>,
    /// Names that resolved to nothing.
    pub unresolved_references: Vec<ReferenceSummary>,
    /// Bounded excerpts a caller selected.
    pub selected_evidence_spans: Vec<SourceExcerpt>,
    /// Units an edge reaches from this one.
    pub neighboring_units: Vec<SourceUnitSummary>,
}

/// What a packet says.
pub struct PacketModel {
    /// Version of the packet contract.
    pub packet_version: u32,
    /// The unit this packet is derived from.
    pub source_unit: SourceUnitId,
    /// The records that unit holds.
    pub symbols: Seq<SymbolModel>,
    /// Relations among them, and to their neighbours.
    pub structural_edges: Seq<RelationModel>,
    /// Names that resolved to nothing.
    pub unresolved_references: Seq<(LocalNodeId, Seq<char>)>,
    /// Bounded excerpts.
    pub selected_evidence_spans: Seq<ExcerptModel>,
    /// Units an edge reaches from this one.
    pub neighboring_units: Seq<UnitModel>,
}

impl View for AnalysisPacket {
    type V = PacketModel;

    open spec fn view(&self) -> PacketModel {
        PacketModel {
            packet_version: self.packet_version,
            source_unit: self.source_unit,
            symbols: views(self.symbols@),
            structural_edges: views(self.structural_edges@),
            unresolved_references: views(self.unresolved_references@),
            selected_evidence_spans: views(self.selected_evidence_spans@),
            neighboring_units: views(self.neighboring_units@),
        }
    }
}

// -- Size --------------------------------------------------------------------------

/// The bytes of the first `count` excerpts.
pub open spec fn excerpt_bytes(excerpts: Seq<ExcerptModel>, count: int) -> nat
    decreases count,
{
    if count <= 0 {
        0
    } else {
        excerpt_bytes(excerpts, count - 1) + encode_utf8(excerpts[count - 1].text).len()
    }
}

/// The bytes of the names of the first `count` symbols.
pub open spec fn name_bytes(symbols: Seq<SymbolModel>, count: int) -> nat
    decreases count,
{
    if count <= 0 {
        0
    } else {
        name_bytes(symbols, count - 1) + match symbols[count - 1].name {
            Some(name) => encode_utf8(name).len(),
            None => 0,
        }
    }
}

impl PacketModel {
    /// How many records the packet describes, across every part of it.
    pub open spec fn records(self) -> nat {
        self.symbols.len() + self.structural_edges.len() + self.unresolved_references.len()
            + self.selected_evidence_spans.len() + self.neighboring_units.len()
    }

    /// The bytes of the excerpts and the names.
    pub open spec fn bytes(self) -> nat {
        excerpt_bytes(
            self.selected_evidence_spans,
            self.selected_evidence_spans.len() as int,
        ) + name_bytes(self.symbols, self.symbols.len() as int)
    }
}

proof fn excerpt_bytes_grow(excerpts: Seq<ExcerptModel>, first: int, second: int)
    requires
        first <= second,
    ensures
        excerpt_bytes(excerpts, first) <= excerpt_bytes(excerpts, second),
    decreases second,
{
    if first < second && second > 0 {
        excerpt_bytes_grow(excerpts, first, second - 1);
    }
}

proof fn name_bytes_grow(symbols: Seq<SymbolModel>, first: int, second: int)
    requires
        first <= second,
    ensures
        name_bytes(symbols, first) <= name_bytes(symbols, second),
    decreases second,
{
    if first < second && second > 0 {
        name_bytes_grow(symbols, first, second - 1);
    }
}

impl AnalysisPacket {
    /// How many records this packet describes, across every part of it.
    ///
    /// The number a budget estimate is built from.
    pub fn record_count(&self) -> (count: usize)
        requires
            self@.records() <= usize::MAX,
        ensures
            count == self@.records(),
    {
        self.symbols.len() + self.structural_edges.len() + self.unresolved_references.len()
            + self.selected_evidence_spans.len() + self.neighboring_units.len()
    }

    /// The bytes this packet would carry, excluding envelope overhead.
    pub fn content_bytes(&self) -> (count: usize)
        requires
            self@.bytes() <= usize::MAX,
        ensures
            count == self@.bytes(),
    {
        let ghost excerpts = self@.selected_evidence_spans;
        let ghost symbols = self@.symbols;
        let mut count: usize = 0;
        let mut at: usize = 0;
        while at < self.selected_evidence_spans.len()
            invariant
                at <= self.selected_evidence_spans@.len(),
                excerpts == views(self.selected_evidence_spans@),
                excerpt_bytes(excerpts, excerpts.len() as int) <= usize::MAX,
                count == excerpt_bytes(excerpts, at as int),
            decreases self.selected_evidence_spans@.len() - at,
        {
            assert(excerpts[at as int] == self.selected_evidence_spans@[at as int]@);
            proof {
                excerpt_bytes_grow(excerpts, at as int + 1, excerpts.len() as int);
            }
            let length: usize = self.selected_evidence_spans[at].text.as_str().as_bytes().len();
            count = count + length;
            at = at + 1;
        }
        let ghost first = count as nat;
        let mut place: usize = 0;
        while place < self.symbols.len()
            invariant
                place <= self.symbols@.len(),
                symbols == views(self.symbols@),
                first + name_bytes(symbols, symbols.len() as int) <= usize::MAX,
                count == first + name_bytes(symbols, place as int),
            decreases self.symbols@.len() - place,
        {
            assert(symbols[place as int] == self.symbols@[place as int]@);
            proof {
                name_bytes_grow(symbols, place as int + 1, symbols.len() as int);
            }
            match &self.symbols[place].name {
                Some(name) => {
                    let length: usize = name.as_str().as_bytes().len();
                    count = count + length;
                }
                None => {}
            }
            place = place + 1;
        }
        count
    }

    /// Reports whether this packet would tell a model anything.
    ///
    /// A unit with no records and nothing unresolved is one an analyzer already covered
    /// completely.
    pub fn is_worth_sending(&self) -> (answer: bool)
        ensures
            answer == (self@.unresolved_references.len() > 0 || self@.symbols.len() > 0),
    {
        self.unresolved_references.len() > 0 || self.symbols.len() > 0
    }
}

// -- What belongs to a unit --------------------------------------------------------

/// Whether one of the first `count` contributions is an analyzer's for a unit.
pub open spec fn analyzed_in(entries: Seq<ContributionModel>, unit: SourceUnitId, count: int) -> bool
    decreases count,
{
    count > 0 && ((entries[count - 1].source_unit == unit && entries[count - 1].owner.kind()
        == OwnerKind::Analyzer) || analyzed_in(entries, unit, count - 1))
}

/// Whether a record carries an analyzer contribution for a unit.
pub open spec fn held_by(node: NodeModel, unit: SourceUnitId) -> bool {
    analyzed_in(node.contributions, unit, node.contributions.len() as int)
}

/// Whether one of the first `count` nodes has an identifier and is held by a unit.
pub open spec fn owned_by(nodes: Seq<NodeModel>, unit: SourceUnitId, id: LocalNodeId, count: int) -> bool
    decreases count,
{
    count > 0 && ((nodes[count - 1].id == id && held_by(nodes[count - 1], unit)) || owned_by(
        nodes,
        unit,
        id,
        count - 1,
    ))
}

/// The unit of the first analyzer contribution from `at` on.
pub open spec fn unit_from(entries: Seq<ContributionModel>, at: int) -> Option<SourceUnitId>
    decreases entries.len() - at,
{
    if at < 0 || at >= entries.len() {
        None
    } else if entries[at].owner.kind() == OwnerKind::Analyzer {
        Some(entries[at].source_unit)
    } else {
        unit_from(entries, at + 1)
    }
}

/// The first text under a key, from `at` on.
pub open spec fn text_under(
    properties: Seq<(Seq<char>, PropertyModel)>,
    key: Seq<char>,
    at: int,
) -> Option<Seq<char>>
    decreases properties.len() - at,
{
    if at < 0 || at >= properties.len() {
        None
    } else {
        match properties[at].1 {
            PropertyModel::Scalar(ScalarModel::String(found)) => if properties[at].0 == key {
                Some(found)
            } else {
                text_under(properties, key, at + 1)
            },
            _ => text_under(properties, key, at + 1),
        }
    }
}

fn holds(node: &Node, unit: SourceUnitId) -> (answer: bool)
    ensures
        answer == held_by(node@, unit),
{
    let ghost models = views(node.contributions@);
    let mut at: usize = node.contributions.len();
    while at > 0
        invariant
            at <= node.contributions@.len(),
            models == views(node.contributions@),
            analyzed_in(models, unit, models.len() as int) == analyzed_in(models, unit, at as int),
        decreases at,
    {
        assert(models[at - 1] == node.contributions@[at - 1]@);
        let entry = &node.contributions[at - 1];
        if entry.source_unit.same(&unit) && entry.owner.kind() == OwnerKind::Analyzer {
            return true;
        }
        at = at - 1;
    }
    false
}

fn owns(graph: &Graph, unit: SourceUnitId, id: LocalNodeId) -> (answer: bool)
    ensures
        answer == owned_by(graph@.nodes, unit, id, graph@.nodes.len() as int),
{
    let ghost models = graph@.nodes;
    let mut at: usize = graph.nodes.len();
    while at > 0
        invariant
            at <= graph.nodes@.len(),
            models == graph@.nodes,
            owned_by(models, unit, id, models.len() as int) == owned_by(
                models,
                unit,
                id,
                at as int,
            ),
        decreases at,
    {
        assert(models[at - 1] == graph.nodes@[at - 1]@);
        if graph.nodes[at - 1].id.same(&id) && holds(&graph.nodes[at - 1], unit) {
            return true;
        }
        at = at - 1;
    }
    false
}

fn unit_of(node: &Node) -> (found: Option<SourceUnitId>)
    ensures
        found == unit_from(node@.contributions, 0),
{
    let ghost models = node@.contributions;
    let mut at: usize = 0;
    while at < node.contributions.len()
        invariant
            at <= node.contributions@.len(),
            models == views(node.contributions@),
            unit_from(models, 0) == unit_from(models, at as int),
        decreases node.contributions@.len() - at,
    {
        assert(models[at as int] == node.contributions@[at as int]@);
        if node.contributions[at].owner.kind() == OwnerKind::Analyzer {
            return Some(node.contributions[at].source_unit);
        }
        at = at + 1;
    }
    None
}

fn text(node: &Node, key: &str) -> (found: Option<String>)
    ensures
        view_of(found) == text_under(node@.properties, key@, 0),
{
    let ghost models = node@.properties;
    let mut at: usize = 0;
    while at < node.properties.len()
        invariant
            at <= node.properties@.len(),
            models == pairs(node.properties@),
            text_under(models, key@, 0) == text_under(models, key@, at as int),
        decreases node.properties@.len() - at,
    {
        assert(models[at as int] == (
            node.properties@[at as int].0@,
            node.properties@[at as int].1@,
        ));
        match &node.properties[at].1 {
            PropertyValue::String(found) => {
                if same(node.properties[at].0.as_str(), key) {
                    return Some(found.clone());
                }
            }
            _ => {}
        }
        at = at + 1;
    }
    None
}

// -- Symbols -----------------------------------------------------------------------

/// What a packet says of a node.
pub open spec fn symbol_of(node: NodeModel) -> SymbolModel {
    SymbolModel {
        id: node.id,
        labels: node.labels,
        name: text_under(node.properties, "name"@, 0),
        path: text_under(node.properties, "path"@, 0),
    }
}

/// The symbols of a unit among the first `count` nodes.
pub open spec fn symbols_of(nodes: Seq<NodeModel>, unit: SourceUnitId, count: int) -> Seq<SymbolModel>
    decreases count,
{
    if count <= 0 {
        Seq::empty()
    } else if owned_by(nodes, unit, nodes[count - 1].id, nodes.len() as int) {
        symbols_of(nodes, unit, count - 1).push(symbol_of(nodes[count - 1]))
    } else {
        symbols_of(nodes, unit, count - 1)
    }
}

fn summarize(node: &Node) -> (symbol: SymbolSummary)
    ensures
        symbol@ == symbol_of(node@),
{
    let ghost models = views(node.labels@);
    let mut labels: Vec<String> = Vec::new();
    let mut at: usize = 0;
    while at < node.labels.len()
        invariant
            at <= node.labels@.len(),
            models == views(node.labels@),
            views(labels@) =~= models.take(at as int),
        decreases node.labels@.len() - at,
    {
        assert(models[at as int] == node.labels@[at as int]@);
        let label = node.labels[at].as_str().to_owned();
        proof {
            views_push(labels@, label);
        }
        labels.push(label);
        at = at + 1;
    }
    assert(models.take(models.len() as int) =~= models);
    SymbolSummary { id: node.id, labels, name: text(node, "name"), path: text(node, "path") }
}

fn collect_symbols(graph: &Graph, unit: SourceUnitId) -> (symbols: Vec<SymbolSummary>)
    ensures
        views(symbols@) == symbols_of(graph@.nodes, unit, graph@.nodes.len() as int),
{
    let ghost models = graph@.nodes;
    let mut symbols: Vec<SymbolSummary> = Vec::new();
    assert(views(symbols@) =~= Seq::<SymbolModel>::empty());
    let mut at: usize = 0;
    while at < graph.nodes.len()
        invariant
            at <= graph.nodes@.len(),
            models == graph@.nodes,
            views(symbols@) == symbols_of(models, unit, at as int),
        decreases graph.nodes@.len() - at,
    {
        assert(models[at as int] == graph.nodes@[at as int]@);
        if owns(graph, unit, graph.nodes[at].id) {
            let symbol = summarize(&graph.nodes[at]);
            proof {
                views_push(symbols@, symbol);
            }
            symbols.push(symbol);
        }
        at = at + 1;
    }
    symbols
}

// -- Relations and neighbours ------------------------------------------------------

/// What a packet says of an edge of a unit: one between records of this database, of which
/// at least one is the unit's. An edge wholly outside the unit is no fact of its packet.
pub open spec fn relation_of(nodes: Seq<NodeModel>, unit: SourceUnitId, edge: EdgeModel) -> Option<
    RelationModel,
> {
    match (edge.source, edge.target) {
        (ReferenceModel::Local(from), ReferenceModel::Local(to)) => if owned_by(
            nodes,
            unit,
            from,
            nodes.len() as int,
        ) || owned_by(nodes, unit, to, nodes.len() as int) {
            Some(RelationModel { from, to, relation: edge.relation })
        } else {
            None
        },
        _ => None,
    }
}

/// The relations of a unit among the first `count` edges.
pub open spec fn relations_of(graph: GraphModel, unit: SourceUnitId, count: int) -> Seq<
    RelationModel,
>
    decreases count,
{
    if count <= 0 {
        Seq::empty()
    } else {
        match relation_of(graph.nodes, unit, graph.edges[count - 1]) {
            Some(relation) => relations_of(graph, unit, count - 1).push(relation),
            None => relations_of(graph, unit, count - 1),
        }
    }
}

/// The other unit that a relation reaches, and the path recorded there: that of the node at
/// its far side, where an analyzer derived it from another unit.
pub open spec fn neighbour_of(nodes: Seq<NodeModel>, unit: SourceUnitId, relation: RelationModel) -> Option<
    (SourceUnitId, Option<Seq<char>>),
> {
    let far = if owned_by(nodes, unit, relation.from, nodes.len() as int) {
        relation.to
    } else {
        relation.from
    };
    match node_at(nodes, far, 0) {
        None => None,
        Some(at) => match unit_from(nodes[at].contributions, 0) {
            None => None,
            Some(other) => if other == unit {
                None
            } else {
                Some((other, text_under(nodes[at].properties, "path"@, 0)))
            },
        },
    }
}

/// Where a unit stands, or would stand, among units in order, from `at` on.
pub open spec fn unit_place(units: Seq<UnitModel>, unit: SourceUnitId, at: int) -> int
    decreases units.len() - at,
{
    if at < 0 || at >= units.len() || !bytes_precede(units[at].source_unit@, unit@) {
        at
    } else {
        unit_place(units, unit, at + 1)
    }
}

/// How many records a unit holds.
pub open spec fn records_held(nodes: Seq<NodeModel>, unit: SourceUnitId) -> nat {
    symbols_of(nodes, unit, nodes.len() as int).len()
}

/// Units in order, with one more of them unless it is there already. Its path is the first
/// that was recorded.
pub open spec fn noted(
    units: Seq<UnitModel>,
    unit: SourceUnitId,
    path: Option<Seq<char>>,
    records: nat,
) -> Seq<UnitModel> {
    let at = unit_place(units, unit, 0);
    if at < units.len() && units[at].source_unit == unit {
        units
    } else {
        units.insert(at, UnitModel { source_unit: unit, path, records })
    }
}

/// The units that the first `count` edges reach from a unit, in order.
pub open spec fn neighbours_of(graph: GraphModel, unit: SourceUnitId, count: int) -> Seq<UnitModel>
    decreases count,
{
    if count <= 0 {
        Seq::empty()
    } else {
        let before = neighbours_of(graph, unit, count - 1);
        match relation_of(graph.nodes, unit, graph.edges[count - 1]) {
            None => before,
            Some(relation) => match neighbour_of(graph.nodes, unit, relation) {
                None => before,
                Some((other, path)) => noted(
                    before,
                    other,
                    path,
                    records_held(graph.nodes, other),
                ),
            },
        }
    }
}

fn count_records(graph: &Graph, unit: SourceUnitId) -> (count: u64)
    ensures
        count == records_held(graph@.nodes, unit),
{
    let ghost models = graph@.nodes;
    let mut count: u64 = 0;
    let mut at: usize = 0;
    while at < graph.nodes.len()
        invariant
            at <= graph.nodes@.len(),
            models == graph@.nodes,
            count <= at,
            count == symbols_of(models, unit, at as int).len(),
        decreases graph.nodes@.len() - at,
    {
        assert(models[at as int] == graph.nodes@[at as int]@);
        if owns(graph, unit, graph.nodes[at].id) {
            count = count + 1;
        }
        at = at + 1;
    }
    count
}

fn note(units: &mut Vec<SourceUnitSummary>, graph: &Graph, unit: SourceUnitId, path: Option<String>)
    ensures
        views(final(units)@) == noted(
            views(old(units)@),
            unit,
            view_of(path),
            records_held(graph@.nodes, unit),
        ),
{
    let ghost models = views(units@);
    let mut at: usize = 0;
    while at < units.len() && units[at].source_unit.is_before(&unit)
        invariant
            at <= units@.len(),
            models == views(units@),
            unit_place(models, unit, 0) == unit_place(models, unit, at as int),
        decreases units@.len() - at,
    {
        assert(models[at as int] == units@[at as int]@);
        at = at + 1;
    }
    if at < units.len() {
        assert(models[at as int] == units@[at as int]@);
    }
    assert(unit_place(models, unit, 0) == at);
    if at == units.len() || !units[at].source_unit.same(&unit) {
        let records = count_records(graph, unit);
        let one = SourceUnitSummary { source_unit: unit, path, records };
        assert(views(units@.insert(at as int, one)) =~= models.insert(at as int, one@));
        units.insert(at, one);
    }
}

fn find_neighbour(graph: &Graph, unit: SourceUnitId, relation: &EdgeSummary) -> (found: Option<
    (SourceUnitId, Option<String>),
>)
    ensures
        neighbour_of(graph@.nodes, unit, relation@) == (match found {
            Some((other, path)) => Some((other, view_of(path))),
            None => None,
        }),
{
    let far = if owns(graph, unit, relation.from) {
        relation.to
    } else {
        relation.from
    };
    match node_of(graph, far) {
        None => None,
        Some(node) => match unit_of(node) {
            None => None,
            Some(other) => {
                if other.same(&unit) {
                    None
                } else {
                    Some((other, text(node, "path")))
                }
            }
        },
    }
}

fn find_relation(graph: &Graph, unit: SourceUnitId, at: usize) -> (found: Option<EdgeSummary>)
    requires
        at < graph.edges@.len(),
    ensures
        view_of(found) == relation_of(graph@.nodes, unit, graph@.edges[at as int]),
{
    let edge = &graph.edges[at];
    assert(graph@.edges[at as int] == edge@);
    match (edge.source.local(), edge.target.local()) {
        (Some(from), Some(to)) => {
            if owns(graph, unit, from) || owns(graph, unit, to) {
                Some(EdgeSummary { from, to, relation: edge.relation.as_str().to_owned() })
            } else {
                None
            }
        }
        _ => None,
    }
}

fn collect_relations(graph: &Graph, unit: SourceUnitId) -> (found: (
    Vec<EdgeSummary>,
    Vec<SourceUnitSummary>,
))
    ensures
        views(found.0@) == relations_of(graph@, unit, graph@.edges.len() as int),
        views(found.1@) == neighbours_of(graph@, unit, graph@.edges.len() as int),
{
    let ghost model = graph@;
    let mut relations: Vec<EdgeSummary> = Vec::new();
    let mut units: Vec<SourceUnitSummary> = Vec::new();
    assert(views(relations@) =~= Seq::<RelationModel>::empty());
    assert(views(units@) =~= Seq::<UnitModel>::empty());
    let mut at: usize = 0;
    while at < graph.edges.len()
        invariant
            at <= graph.edges@.len(),
            model == graph@,
            views(relations@) == relations_of(model, unit, at as int),
            views(units@) == neighbours_of(model, unit, at as int),
        decreases graph.edges@.len() - at,
    {
        match find_relation(graph, unit, at) {
            None => {}
            Some(relation) => {
                match find_neighbour(graph, unit, &relation) {
                    None => {}
                    Some((other, path)) => {
                        note(&mut units, graph, other, path);
                    }
                }
                proof {
                    views_push(relations@, relation);
                }
                relations.push(relation);
            }
        }
        at = at + 1;
    }
    (relations, units)
}

// -- Excerpts ----------------------------------------------------------------------

/// Where a text is cut so that what stands from `at` on takes no more bytes than there is
/// room for.
pub open spec fn cut_place(text: Seq<char>, at: int, room: int) -> int
    decreases text.len() - at,
{
    if at < 0 || at >= text.len() || width(text[at]) > room {
        at
    } else {
        cut_place(text, at + 1, room - width(text[at]))
    }
}

/// An excerpt cut to the permitted length, which says so where it is cut.
pub open spec fn cut(excerpt: ExcerptModel) -> ExcerptModel {
    if encode_utf8(excerpt.text).len() <= MAX_EXCERPT_BYTES {
        excerpt
    } else {
        ExcerptModel {
            text: excerpt.text.take(cut_place(excerpt.text, 0, MAX_EXCERPT_BYTES as int)),
            truncated: true,
            ..excerpt
        }
    }
}

/// The excerpts a packet carries.
pub open spec fn excerpts_carried(excerpts: Seq<ExcerptModel>) -> Seq<ExcerptModel> {
    Seq::new(
        if excerpts.len() <= MAX_EVIDENCE_SPANS {
            excerpts.len()
        } else {
            MAX_EVIDENCE_SPANS as nat
        },
        |i: int| cut(excerpts[i]),
    )
}

proof fn cut_fits(text: Seq<char>, at: int, room: int)
    requires
        0 <= at <= text.len(),
        0 <= room,
    ensures
        at <= cut_place(text, at, room) <= text.len(),
        encode_utf8(text.subrange(at, cut_place(text, at, room))).len() <= room,
    decreases text.len() - at,
{
    if at < text.len() && width(text[at]) <= room {
        let end = cut_place(text, at, room);
        cut_fits(text, at + 1, room - width(text[at]));
        let part = text.subrange(at, end);
        assert(part.drop_first() =~= text.subrange(at + 1, end));
        assert(part[0] == text[at]);
        char_is_scalar(text[at]);
        assert(encode_scalar(text[at] as u32).len() == width(text[at]));
        assert(encode_utf8(part) == encode_scalar(part[0] as u32) + encode_utf8(
            part.drop_first(),
        ));
    } else {
        assert(text.subrange(at, at) =~= Seq::<char>::empty());
    }
}

fn bytes_in(c: char) -> (count: usize)
    ensures
        count == width(c),
{
    let scalar: u32 = c as u32;
    if scalar < 0x80 {
        1
    } else if scalar < 0x800 {
        2
    } else if scalar < 0x10000 {
        3
    } else {
        4
    }
}

fn truncated(excerpt: &SourceExcerpt) -> (made: SourceExcerpt)
    ensures
        made@ == cut(excerpt@),
{
    let length: usize = excerpt.text.as_str().as_bytes().len();
    if length <= MAX_EXCERPT_BYTES {
        return SourceExcerpt {
            path: excerpt.path.clone(),
            range: excerpt.range,
            text: excerpt.text.clone(),
            truncated: excerpt.truncated,
        };
    }
    let all = characters(excerpt.text.as_str());
    let mut room: usize = MAX_EXCERPT_BYTES;
    let mut end: usize = 0;
    while end < all.len() && room >= bytes_in(all[end])
        invariant
            end <= all@.len(),
            room <= MAX_EXCERPT_BYTES,
            cut_place(all@, 0, MAX_EXCERPT_BYTES as int) == cut_place(
                all@,
                end as int,
                room as int,
            ),
        decreases all@.len() - end,
    {
        room = room - bytes_in(all[end]);
        end = end + 1;
    }
    let text = string_of(&all, 0, end);
    assert(text@ =~= excerpt.text@.take(end as int));
    SourceExcerpt { path: excerpt.path.clone(), range: excerpt.range, text, truncated: true }
}

// -- Packets -----------------------------------------------------------------------

/// The first units, as many as a packet may summarize.
pub open spec fn units_carried(units: Seq<UnitModel>) -> Seq<UnitModel> {
    if units.len() <= MAX_NEIGHBOURING_UNITS {
        units
    } else {
        units.take(MAX_NEIGHBOURING_UNITS as int)
    }
}

/// The packet of a unit.
pub open spec fn packet_of(graph: GraphModel, unit: SourceUnitId, excerpts: Seq<ExcerptModel>) -> PacketModel {
    PacketModel {
        packet_version: PACKET_VERSION,
        source_unit: unit,
        symbols: symbols_of(graph.nodes, unit, graph.nodes.len() as int),
        structural_edges: relations_of(graph, unit, graph.edges.len() as int),
        unresolved_references: Seq::empty(),
        selected_evidence_spans: excerpts_carried(excerpts),
        neighboring_units: units_carried(neighbours_of(graph, unit, graph.edges.len() as int)),
    }
}

/// Builds a packet for one source unit.
///
/// The excerpts are given by the caller: the graph does not hold source.
pub fn build(graph: &Graph, source_unit: SourceUnitId, excerpts: &[SourceExcerpt]) -> (packet:
    AnalysisPacket)
    ensures
        packet@ == packet_of(graph@, source_unit, views(excerpts@)),
{
    let symbols = collect_symbols(graph, source_unit);
    let (structural_edges, units) = collect_relations(graph, source_unit);
    let ghost all = views(units@);
    assert(all.len() == units@.len());
    let mut neighboring_units = units;
    if neighboring_units.len() > MAX_NEIGHBOURING_UNITS {
        neighboring_units.truncate(MAX_NEIGHBOURING_UNITS);
    }
    assert(views(neighboring_units@) =~= units_carried(all));
    let ghost given = views(excerpts@);
    let ghost carried = excerpts_carried(given);
    let mut spans: Vec<SourceExcerpt> = Vec::new();
    let mut at: usize = 0;
    while at < excerpts.len() && at < MAX_EVIDENCE_SPANS
        invariant
            at <= excerpts@.len(),
            at <= MAX_EVIDENCE_SPANS,
            given == views(excerpts@),
            carried == excerpts_carried(given),
            views(spans@) =~= carried.take(at as int),
        decreases excerpts@.len() - at,
    {
        assert(given[at as int] == excerpts@[at as int]@);
        let span = truncated(&excerpts[at]);
        proof {
            views_push(spans@, span);
        }
        spans.push(span);
        at = at + 1;
    }
    assert(carried.take(carried.len() as int) =~= carried);
    let unresolved: Vec<ReferenceSummary> = Vec::new();
    assert(views(unresolved@) =~= Seq::<(LocalNodeId, Seq<char>)>::empty());
    AnalysisPacket {
        packet_version: PACKET_VERSION,
        source_unit,
        symbols,
        structural_edges,
        unresolved_references: unresolved,
        selected_evidence_spans: spans,
        neighboring_units,
    }
}

// -- Laws --------------------------------------------------------------------------

/// However large the graph is, a packet carries a bounded number of neighbours and of
/// excerpts, and no excerpt is longer than the limit.
pub proof fn packet_is_bounded(graph: GraphModel, unit: SourceUnitId, excerpts: Seq<ExcerptModel>)
    ensures
        packet_of(graph, unit, excerpts).neighboring_units.len() <= MAX_NEIGHBOURING_UNITS,
        packet_of(graph, unit, excerpts).selected_evidence_spans.len() <= MAX_EVIDENCE_SPANS,
        forall|i: int|
            0 <= i < packet_of(graph, unit, excerpts).selected_evidence_spans.len()
                ==> encode_utf8(
                (#[trigger] packet_of(graph, unit, excerpts).selected_evidence_spans[i]).text,
            ).len() <= MAX_EXCERPT_BYTES,
{
    let spans = packet_of(graph, unit, excerpts).selected_evidence_spans;
    assert forall|i: int| 0 <= i < spans.len() implies encode_utf8((#[trigger] spans[i]).text).len()
        <= MAX_EXCERPT_BYTES by {
        let text = excerpts[i].text;
        cut_fits(text, 0, MAX_EXCERPT_BYTES as int);
        assert(text.take(cut_place(text, 0, MAX_EXCERPT_BYTES as int)) =~= text.subrange(
            0,
            cut_place(text, 0, MAX_EXCERPT_BYTES as int),
        ));
    }
}

/// An excerpt that was cut says so, and is the front of what was given.
pub proof fn cut_excerpt_says_so(excerpt: ExcerptModel)
    ensures
        cut(excerpt).text.is_prefix_of(excerpt.text),
        cut(excerpt).text != excerpt.text ==> cut(excerpt).truncated,
{
    cut_fits(excerpt.text, 0, MAX_EXCERPT_BYTES as int);
    let after = cut(excerpt).text;
    assert(after =~= excerpt.text.subrange(0, after.len() as int));
}

proof fn symbols_are_owned(nodes: Seq<NodeModel>, unit: SourceUnitId, count: int)
    requires
        0 <= count <= nodes.len(),
    ensures
        forall|i: int|
            0 <= i < symbols_of(nodes, unit, count).len() ==> owned_by(
                nodes,
                unit,
                (#[trigger] symbols_of(nodes, unit, count)[i]).id,
                nodes.len() as int,
            ),
    decreases count,
{
    if count > 0 {
        symbols_are_owned(nodes, unit, count - 1);
        let before = symbols_of(nodes, unit, count - 1);
        let after = symbols_of(nodes, unit, count);
        assert forall|i: int| 0 <= i < after.len() implies owned_by(
            nodes,
            unit,
            (#[trigger] after[i]).id,
            nodes.len() as int,
        ) by {
            if i < before.len() {
                assert(after[i] == before[i]);
            }
        }
    }
}

proof fn relations_touch(graph: GraphModel, unit: SourceUnitId, count: int)
    requires
        0 <= count <= graph.edges.len(),
    ensures
        forall|i: int|
            #![trigger relations_of(graph, unit, count)[i]]
            0 <= i < relations_of(graph, unit, count).len() ==> owned_by(
                graph.nodes,
                unit,
                relations_of(graph, unit, count)[i].from,
                graph.nodes.len() as int,
            ) || owned_by(
                graph.nodes,
                unit,
                relations_of(graph, unit, count)[i].to,
                graph.nodes.len() as int,
            ),
    decreases count,
{
    if count > 0 {
        relations_touch(graph, unit, count - 1);
        let before = relations_of(graph, unit, count - 1);
        let after = relations_of(graph, unit, count);
        assert forall|i: int| #![trigger after[i]] 0 <= i < after.len() implies owned_by(
            graph.nodes,
            unit,
            after[i].from,
            graph.nodes.len() as int,
        ) || owned_by(graph.nodes, unit, after[i].to, graph.nodes.len() as int) by {
            if i < before.len() {
                assert(after[i] == before[i]);
            }
        }
    }
}

/// A packet describes its unit and not the repository: every symbol belongs to the unit,
/// and every relation has an end in it.
pub proof fn packet_is_anchored(graph: GraphModel, unit: SourceUnitId, excerpts: Seq<ExcerptModel>)
    ensures
        packet_of(graph, unit, excerpts).source_unit == unit,
        forall|i: int|
            0 <= i < packet_of(graph, unit, excerpts).symbols.len() ==> owned_by(
                graph.nodes,
                unit,
                (#[trigger] packet_of(graph, unit, excerpts).symbols[i]).id,
                graph.nodes.len() as int,
            ),
        forall|i: int|
            #![trigger packet_of(graph, unit, excerpts).structural_edges[i]]
            0 <= i < packet_of(graph, unit, excerpts).structural_edges.len() ==> owned_by(
                graph.nodes,
                unit,
                packet_of(graph, unit, excerpts).structural_edges[i].from,
                graph.nodes.len() as int,
            ) || owned_by(
                graph.nodes,
                unit,
                packet_of(graph, unit, excerpts).structural_edges[i].to,
                graph.nodes.len() as int,
            ),
{
    symbols_are_owned(graph.nodes, unit, graph.nodes.len() as int);
    relations_touch(graph, unit, graph.edges.len() as int);
}

} // verus!
