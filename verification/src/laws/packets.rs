//! What a packet says of a unit: all of its records, all of its relations, and every unit that
//! one of them reaches.

use crate::contribution::ContributionModel;
use crate::contribution::OwnerKind;
use crate::graph::EdgeModel;
use crate::graph::GraphModel;
use crate::graph::NodeModel;
use crate::graph::ReferenceModel;
use crate::id::bytes_precede;
use crate::id::bytes_precede_total;
use crate::id::LocalNodeId;
use crate::id::SourceUnitId;
use crate::laws::rows::pushed_contains;
use crate::packet::analyzed_in;
use crate::packet::cut;
use crate::packet::neighbour_of;
use crate::packet::neighbours_of;
use crate::packet::noted;
use crate::packet::owned_by;
use crate::packet::packet_of;
use crate::packet::records_held;
use crate::packet::relation_of;
use crate::packet::relations_of;
use crate::packet::symbols_of;
use crate::packet::text_under;
use crate::packet::unit_from;
use crate::packet::unit_place;
use crate::packet::ExcerptModel;
use crate::packet::RelationModel;
use crate::packet::SymbolModel;
use crate::packet::UnitModel;
use crate::packet::MAX_NEIGHBOURING_UNITS;
use crate::procedure::node_at;
use crate::property::PropertyModel;
use crate::property::ScalarModel;
use vstd::prelude::*;

verus! {

// -- What belongs to a unit --------------------------------------------------------

/// Whether an analyzer contributed to a node for a unit.
pub open spec fn is_derived_from(node: NodeModel, unit: SourceUnitId) -> bool {
    exists|j: int|
        0 <= j < node.contributions.len() && (#[trigger] node.contributions[j]).source_unit == unit
            && node.contributions[j].owner.kind() == OwnerKind::Analyzer
}

/// Whether an identifier is that of a node which an analyzer derived from a unit.
pub open spec fn belongs(nodes: Seq<NodeModel>, unit: SourceUnitId, id: LocalNodeId) -> bool {
    exists|i: int|
        0 <= i < nodes.len() && (#[trigger] nodes[i]).id == id && is_derived_from(nodes[i], unit)
}

proof fn one_is_an_analyzers(entries: Seq<ContributionModel>, unit: SourceUnitId, count: int)
    requires
        0 <= count <= entries.len(),
    ensures
        analyzed_in(entries, unit, count) <==> exists|j: int|
            0 <= j < count && (#[trigger] entries[j]).source_unit == unit && entries[j].owner.kind()
                == OwnerKind::Analyzer,
    decreases count,
{
    if count > 0 {
        one_is_an_analyzers(entries, unit, count - 1);
        if entries[count - 1].source_unit == unit && entries[count - 1].owner.kind()
            == OwnerKind::Analyzer {
            assert(entries[count - 1].source_unit == unit);
        }
    }
}

proof fn owned_means_derived(
    nodes: Seq<NodeModel>,
    unit: SourceUnitId,
    id: LocalNodeId,
    count: int,
)
    requires
        0 <= count <= nodes.len(),
    ensures
        owned_by(nodes, unit, id, count) <==> exists|i: int|
            0 <= i < count && (#[trigger] nodes[i]).id == id && is_derived_from(nodes[i], unit),
    decreases count,
{
    if count > 0 {
        owned_means_derived(nodes, unit, id, count - 1);
        let last = nodes[count - 1];
        one_is_an_analyzers(last.contributions, unit, last.contributions.len() as int);
        if last.id == id && is_derived_from(last, unit) {
            assert(nodes[count - 1].id == id);
        }
    }
}

proof fn owned_is_belonging(nodes: Seq<NodeModel>, unit: SourceUnitId, id: LocalNodeId)
    ensures
        owned_by(nodes, unit, id, nodes.len() as int) <==> belongs(nodes, unit, id),
{
    owned_means_derived(nodes, unit, id, nodes.len() as int);
}

/// Whether a text is what a node says under a key: its first text with that key.
pub open spec fn says_under(node: NodeModel, key: Seq<char>, text: Option<Seq<char>>) -> bool {
    match text {
        Some(found) => exists|k: int|
            0 <= k < node.properties.len() && (#[trigger] node.properties[k]) == (
                key,
                PropertyModel::Scalar(ScalarModel::String(found)),
            ) && forall|j: int| 0 <= j < k ==> !is_text(#[trigger] node.properties[j], key),
        None => forall|j: int|
            0 <= j < node.properties.len() ==> !is_text(#[trigger] node.properties[j], key),
    }
}

/// Whether a property is a text under a key.
pub open spec fn is_text(property: (Seq<char>, PropertyModel), key: Seq<char>) -> bool {
    property.0 == key && property.1 matches PropertyModel::Scalar(ScalarModel::String(_))
}

proof fn first_text_is_said(node: NodeModel, key: Seq<char>, at: int)
    requires
        0 <= at <= node.properties.len(),
        forall|j: int| 0 <= j < at ==> !is_text(#[trigger] node.properties[j], key),
    ensures
        says_under(node, key, text_under(node.properties, key, at)),
    decreases node.properties.len() - at,
{
    if at < node.properties.len() {
        if is_text(node.properties[at], key) {
            let found = node.properties[at].1->Scalar_0->String_0;
            assert(node.properties[at] == (
                key,
                PropertyModel::Scalar(ScalarModel::String(found)),
            ));
        } else {
            first_text_is_said(node, key, at + 1);
        }
    }
}

// -- Symbols -----------------------------------------------------------------------

/// Whether a symbol describes a node: its identifier, its labels, and what it says under `name`
/// and `path`.
pub open spec fn describes(symbol: SymbolModel, node: NodeModel) -> bool {
    &&& symbol.id == node.id
    &&& symbol.labels == node.labels
    &&& says_under(node, "name"@, symbol.name)
    &&& says_under(node, "path"@, symbol.path)
}

/// The places of the nodes that belong to a unit, of the first `count`, in their order.
pub open spec fn places(nodes: Seq<NodeModel>, unit: SourceUnitId, count: int) -> Seq<int>
    decreases count,
{
    if count <= 0 {
        Seq::empty()
    } else if belongs(nodes, unit, nodes[count - 1].id) {
        places(nodes, unit, count - 1).push(count - 1)
    } else {
        places(nodes, unit, count - 1)
    }
}

proof fn symbols_stand_in_places(nodes: Seq<NodeModel>, unit: SourceUnitId, count: int)
    requires
        0 <= count <= nodes.len(),
    ensures
        symbols_of(nodes, unit, count).len() == places(nodes, unit, count).len(),
        forall|i: int|
            0 <= i < places(nodes, unit, count).len() ==> 0 <= (#[trigger] places(nodes, unit, count)[i])
                < count && describes(
                symbols_of(nodes, unit, count)[i],
                nodes[places(nodes, unit, count)[i]],
            ),
    decreases count,
{
    if count > 0 {
        symbols_stand_in_places(nodes, unit, count - 1);
        owned_is_belonging(nodes, unit, nodes[count - 1].id);
        first_text_is_said(nodes[count - 1], "name"@, 0);
        first_text_is_said(nodes[count - 1], "path"@, 0);
        let before = places(nodes, unit, count - 1);
        let after = places(nodes, unit, count);
        let front = symbols_of(nodes, unit, count - 1);
        let all = symbols_of(nodes, unit, count);
        assert forall|i: int| 0 <= i < after.len() implies 0 <= (#[trigger] after[i]) < count
            && describes(all[i], nodes[after[i]]) by {
            if i < before.len() {
                assert(after[i] == before[i]);
                assert(all[i] == front[i]);
            }
        }
    }
}

proof fn every_place_counts(nodes: Seq<NodeModel>, unit: SourceUnitId, count: int, k: int)
    requires
        0 <= k < count <= nodes.len(),
    ensures
        places(nodes, unit, count).contains(k) <==> belongs(nodes, unit, nodes[k].id),
    decreases count,
{
    pushed_contains(places(nodes, unit, count - 1), count - 1, k);
    if k < count - 1 {
        every_place_counts(nodes, unit, count - 1, k);
    } else {
        symbols_stand_in_places(nodes, unit, count - 1);
        let before = places(nodes, unit, count - 1);
        if before.contains(k) {
            let i = choose|i: int| 0 <= i < before.len() && before[i] == k;
            assert(before[i] < count - 1);
        }
    }
}

/// A packet has one symbol for each node that belongs to its unit, in the order of the graph,
/// and no other.
pub proof fn a_packet_has_every_symbol(
    graph: GraphModel,
    unit: SourceUnitId,
    excerpts: Seq<ExcerptModel>,
    k: int,
)
    requires
        0 <= k < graph.nodes.len(),
    ensures
        ({
            let symbols = packet_of(graph, unit, excerpts).symbols;
            let all = places(graph.nodes, unit, graph.nodes.len() as int);
            &&& symbols.len() == all.len()
            &&& all.contains(k) <==> belongs(graph.nodes, unit, graph.nodes[k].id)
            &&& forall|i: int|
                0 <= i < symbols.len() ==> describes(#[trigger] symbols[i], graph.nodes[all[i]])
        }),
{
    symbols_stand_in_places(graph.nodes, unit, graph.nodes.len() as int);
    every_place_counts(graph.nodes, unit, graph.nodes.len() as int, k);
    let symbols = packet_of(graph, unit, excerpts).symbols;
    let all = places(graph.nodes, unit, graph.nodes.len() as int);
    assert forall|i: int| 0 <= i < symbols.len() implies describes(
        #[trigger] symbols[i],
        graph.nodes[all[i]],
    ) by {
        assert(0 <= all[i]);
    }
}

// -- Relations ---------------------------------------------------------------------

/// Whether an edge runs between two records of this database, and one of them at least belongs
/// to a unit.
pub open spec fn is_of_unit(
    graph: GraphModel,
    unit: SourceUnitId,
    edge: EdgeModel,
    from: LocalNodeId,
    to: LocalNodeId,
) -> bool {
    &&& edge.source == ReferenceModel::Local(from)
    &&& edge.target == ReferenceModel::Local(to)
    &&& belongs(graph.nodes, unit, from) || belongs(graph.nodes, unit, to)
}

proof fn relations_are_of_the_unit(
    graph: GraphModel,
    unit: SourceUnitId,
    count: int,
    relation: RelationModel,
)
    requires
        0 <= count <= graph.edges.len(),
    ensures
        relations_of(graph, unit, count).contains(relation) <==> exists|k: int|
            0 <= k < count && is_of_unit(
                graph,
                unit,
                #[trigger] graph.edges[k],
                relation.from,
                relation.to,
            ) && graph.edges[k].relation == relation.relation,
    decreases count,
{
    if count > 0 {
        relations_are_of_the_unit(graph, unit, count - 1, relation);
        let edge = graph.edges[count - 1];
        if let (ReferenceModel::Local(from), ReferenceModel::Local(to)) = (edge.source, edge.target) {
            owned_is_belonging(graph.nodes, unit, from);
            owned_is_belonging(graph.nodes, unit, to);
        }
        if let Some(found) = relation_of(graph.nodes, unit, edge) {
            pushed_contains(relations_of(graph, unit, count - 1), found, relation);
        }
        assert(graph.edges[count - 1] == edge);
    }
}

/// A packet has every relation with an end in its unit, as it runs, and no other.
pub proof fn a_packet_has_every_relation(
    graph: GraphModel,
    unit: SourceUnitId,
    excerpts: Seq<ExcerptModel>,
    relation: RelationModel,
)
    ensures
        packet_of(graph, unit, excerpts).structural_edges.contains(relation) <==> exists|k: int|
            0 <= k < graph.edges.len() && is_of_unit(
                graph,
                unit,
                #[trigger] graph.edges[k],
                relation.from,
                relation.to,
            ) && graph.edges[k].relation == relation.relation,
{
    relations_are_of_the_unit(graph, unit, graph.edges.len() as int, relation);
}

// -- Neighbours --------------------------------------------------------------------

/// Whether a unit is that of the first analyzer contribution of a node.
pub open spec fn is_first_unit(node: NodeModel, unit: SourceUnitId) -> bool {
    exists|j: int|
        0 <= j < node.contributions.len() && (#[trigger] node.contributions[j]).source_unit == unit
            && node.contributions[j].owner.kind() == OwnerKind::Analyzer && forall|i: int|
            0 <= i < j ==> (#[trigger] node.contributions[i]).owner.kind() != OwnerKind::Analyzer
}

proof fn first_unit_is_found(node: NodeModel, at: int, unit: SourceUnitId)
    requires
        0 <= at <= node.contributions.len(),
        forall|i: int|
            0 <= i < at ==> (#[trigger] node.contributions[i]).owner.kind() != OwnerKind::Analyzer,
    ensures
        unit_from(node.contributions, at) == Some(unit) <==> is_first_unit(node, unit),
    decreases node.contributions.len() - at,
{
    let entries = node.contributions;
    if at < entries.len() {
        if entries[at].owner.kind() == OwnerKind::Analyzer {
            if is_first_unit(node, unit) {
                let j = choose|j: int|
                    0 <= j < entries.len() && (#[trigger] entries[j]).source_unit == unit
                        && entries[j].owner.kind() == OwnerKind::Analyzer && forall|i: int|
                        0 <= i < j ==> (#[trigger] entries[i]).owner.kind() != OwnerKind::Analyzer;
                if at < j {
                    assert(entries[at].owner.kind() != OwnerKind::Analyzer);
                }
                if j < at {
                    assert(entries[j].owner.kind() != OwnerKind::Analyzer);
                }
            }
            if entries[at].source_unit == unit {
                assert(is_first_unit(node, unit));
            }
        } else {
            first_unit_is_found(node, at + 1, unit);
        }
    } else if is_first_unit(node, unit) {
        let j = choose|j: int|
            0 <= j < entries.len() && (#[trigger] entries[j]).source_unit == unit
                && entries[j].owner.kind() == OwnerKind::Analyzer && forall|i: int|
                0 <= i < j ==> (#[trigger] entries[i]).owner.kind() != OwnerKind::Analyzer;
        assert(entries[j].owner.kind() != OwnerKind::Analyzer);
    }
}

proof fn first_node_is_found(nodes: Seq<NodeModel>, id: LocalNodeId, at: int)
    requires
        0 <= at <= nodes.len(),
    ensures
        match node_at(nodes, id, at) {
            Some(k) => at <= k < nodes.len() && nodes[k].id == id && forall|j: int|
                at <= j < k ==> (#[trigger] nodes[j]).id != id,
            None => forall|j: int| at <= j < nodes.len() ==> (#[trigger] nodes[j]).id != id,
        },
    decreases nodes.len() - at,
{
    if at < nodes.len() && nodes[at].id != id {
        first_node_is_found(nodes, id, at + 1);
    }
}

/// Whether a node is the first with an identifier.
pub open spec fn is_first_node(nodes: Seq<NodeModel>, id: LocalNodeId, node: NodeModel) -> bool {
    exists|k: int|
        0 <= k < nodes.len() && (#[trigger] nodes[k]) == node && node.id == id && forall|j: int|
            0 <= j < k ==> (#[trigger] nodes[j]).id != id
}

/// Whether an edge leads from one unit to another: one end belongs to the unit, and the node at
/// the other end, whichever of the two that is, was first derived from the other unit. Where
/// both ends belong to the unit, the target is the other end.
pub open spec fn leads_to(
    graph: GraphModel,
    unit: SourceUnitId,
    edge: EdgeModel,
    other: SourceUnitId,
    far: NodeModel,
) -> bool {
    &&& other != unit
    &&& is_first_unit(far, other)
    &&& exists|from: LocalNodeId, to: LocalNodeId|
        #[trigger] is_of_unit(graph, unit, edge, from, to) && is_first_node(
            graph.nodes,
            if belongs(graph.nodes, unit, from) {
                to
            } else {
                from
            },
            far,
        )
}

/// Whether a unit is among others.
pub open spec fn is_among(units: Seq<UnitModel>, unit: SourceUnitId) -> bool {
    exists|i: int| 0 <= i < units.len() && (#[trigger] units[i]).source_unit == unit
}

proof fn place_is_within(units: Seq<UnitModel>, unit: SourceUnitId, at: int)
    requires
        0 <= at <= units.len(),
    ensures
        at <= unit_place(units, unit, at) <= units.len(),
        forall|i: int|
            at <= i < unit_place(units, unit, at) ==> bytes_precede(
                (#[trigger] units[i]).source_unit@,
                unit@,
            ),
        unit_place(units, unit, at) < units.len() ==> !bytes_precede(
            units[unit_place(units, unit, at)].source_unit@,
            unit@,
        ),
    decreases units.len() - at,
{
    if at < units.len() && bytes_precede(units[at].source_unit@, unit@) {
        place_is_within(units, unit, at + 1);
    }
}

/// Whether units stand in the order of their identifiers, each once.
pub open spec fn in_order(units: Seq<UnitModel>) -> bool {
    forall|i: int, j: int|
        0 <= i < j < units.len() ==> bytes_precede(
            (#[trigger] units[i]).source_unit@,
            (#[trigger] units[j]).source_unit@,
        )
}

proof fn noting_adds_one(
    units: Seq<UnitModel>,
    unit: SourceUnitId,
    path: Option<Seq<char>>,
    records: nat,
)
    requires
        in_order(units),
    ensures
        in_order(noted(units, unit, path, records)),
        is_among(noted(units, unit, path, records), unit),
        forall|i: int|
            0 <= i < units.len() ==> noted(units, unit, path, records).contains(#[trigger] units[i]),
        forall|i: int|
            0 <= i < noted(units, unit, path, records).len() ==> units.contains(
                #[trigger] noted(units, unit, path, records)[i],
            ) || noted(units, unit, path, records)[i] == (UnitModel {
                source_unit: unit,
                path,
                records,
            }),
{
    let at = unit_place(units, unit, 0);
    let one = UnitModel { source_unit: unit, path, records };
    let after = noted(units, unit, path, records);
    place_is_within(units, unit, 0);
    if at < units.len() && units[at].source_unit == unit {
        assert(after[at].source_unit == unit);
    } else {
        assert(after[at] == one);
        assert(is_among(after, unit));
        assert forall|i: int| 0 <= i < units.len() implies after.contains(#[trigger] units[i]) by {
            if i < at {
                assert(after[i] == units[i]);
            } else {
                assert(after[i + 1] == units[i]);
            }
        }
        assert forall|i: int| 0 <= i < after.len() implies units.contains(#[trigger] after[i])
            || after[i] == one by {
            if i < at {
                assert(after[i] == units[i]);
            } else if i > at {
                assert(after[i] == units[i - 1]);
            }
        }
        assert forall|i: int, j: int| 0 <= i < j < after.len() implies bytes_precede(
            (#[trigger] after[i]).source_unit@,
            (#[trigger] after[j]).source_unit@,
        ) by {
            if i < at {
                assert(after[i] == units[i]);
            } else if i > at {
                assert(after[i] == units[i - 1]);
            }
            if j < at {
                assert(after[j] == units[j]);
            } else if j > at {
                assert(after[j] == units[j - 1]);
            }
            if i < at && j == at {
                assert(bytes_precede(units[i].source_unit@, unit@));
            }
            if i == at {
                let first = units[at].source_unit;
                unit.length();
                first.length();
                units[j - 1].source_unit.length();
                bytes_precede_total(first@, unit@);
                if first@ == unit@ {
                    SourceUnitId::same_bytes(first, unit);
                }
                assert(bytes_precede(unit@, first@));
                if j - 1 > at {
                    assert(bytes_precede(units[at].source_unit@, units[j - 1].source_unit@));
                    crate::id::bytes_precede_transitive(unit@, first@, units[j - 1].source_unit@);
                }
            }
        }
    }
}

proof fn a_relation_reaches_its_far_end(
    graph: GraphModel,
    unit: SourceUnitId,
    edge: EdgeModel,
    other: SourceUnitId,
    far: NodeModel,
)
    ensures
        leads_to(graph, unit, edge, other, far) ==> (relation_of(graph.nodes, unit, edge) matches Some(
            relation,
        ) && neighbour_of(graph.nodes, unit, relation) == Some(
            (other, text_under(far.properties, "path"@, 0)),
        )),
{
    if leads_to(graph, unit, edge, other, far) {
        let (from, to) = choose|from: LocalNodeId, to: LocalNodeId|
            #[trigger] is_of_unit(graph, unit, edge, from, to) && is_first_node(
                graph.nodes,
                if belongs(graph.nodes, unit, from) {
                    to
                } else {
                    from
                },
                far,
            );
        owned_is_belonging(graph.nodes, unit, from);
        owned_is_belonging(graph.nodes, unit, to);
        let id = if belongs(graph.nodes, unit, from) {
            to
        } else {
            from
        };
        first_node_is_found(graph.nodes, id, 0);
        let k = choose|k: int|
            0 <= k < graph.nodes.len() && (#[trigger] graph.nodes[k]) == far && far.id == id
                && forall|j: int| 0 <= j < k ==> (#[trigger] graph.nodes[j]).id != id;
        assert(node_at(graph.nodes, id, 0) == Some(k)) by {
            match node_at(graph.nodes, id, 0) {
                Some(m) => {
                    if m < k {
                        assert(graph.nodes[m].id != id);
                    }
                    if k < m {
                        assert(graph.nodes[k].id != id);
                    }
                },
                None => assert(graph.nodes[k].id != id),
            }
        }
        first_unit_is_found(far, 0, other);
    }
}

proof fn a_neighbour_is_led_to(
    graph: GraphModel,
    unit: SourceUnitId,
    edge: EdgeModel,
    relation: RelationModel,
    other: SourceUnitId,
    path: Option<Seq<char>>,
) -> (far: NodeModel)
    requires
        relation_of(graph.nodes, unit, edge) == Some(relation),
        neighbour_of(graph.nodes, unit, relation) == Some((other, path)),
    ensures
        leads_to(graph, unit, edge, other, far),
        says_under(far, "path"@, path),
{
    owned_is_belonging(graph.nodes, unit, relation.from);
    owned_is_belonging(graph.nodes, unit, relation.to);
    let id = if belongs(graph.nodes, unit, relation.from) {
        relation.to
    } else {
        relation.from
    };
    first_node_is_found(graph.nodes, id, 0);
    let k = node_at(graph.nodes, id, 0)->0;
    let far = graph.nodes[k];
    first_unit_is_found(far, 0, other);
    first_text_is_said(far, "path"@, 0);
    assert(graph.nodes[k] == far);
    assert(is_first_node(graph.nodes, id, far));
    assert(is_of_unit(graph, unit, edge, relation.from, relation.to));
    far
}

/// Whether a neighbour is one that an edge of the first `count` leads to, with the path that is
/// recorded there and as many records as it holds.
pub open spec fn is_led_to(graph: GraphModel, unit: SourceUnitId, count: int, found: UnitModel) -> bool {
    &&& found.records == places(graph.nodes, found.source_unit, graph.nodes.len() as int).len()
    &&& exists|k: int, far: NodeModel|
        0 <= k < count && #[trigger] leads_to(graph, unit, graph.edges[k], found.source_unit, far)
            && says_under(far, "path"@, found.path)
}

proof fn neighbours_are_led_to(graph: GraphModel, unit: SourceUnitId, count: int)
    requires
        0 <= count <= graph.edges.len(),
    ensures
        in_order(neighbours_of(graph, unit, count)),
        forall|k: int, other: SourceUnitId, far: NodeModel|
            0 <= k < count && #[trigger] leads_to(graph, unit, graph.edges[k], other, far) ==> is_among(
                neighbours_of(graph, unit, count),
                other,
            ),
        forall|i: int|
            0 <= i < neighbours_of(graph, unit, count).len() ==> is_led_to(
                graph,
                unit,
                count,
                #[trigger] neighbours_of(graph, unit, count)[i],
            ),
    decreases count,
{
    if count > 0 {
        neighbours_are_led_to(graph, unit, count - 1);
        let before = neighbours_of(graph, unit, count - 1);
        let after = neighbours_of(graph, unit, count);
        let edge = graph.edges[count - 1];
        let next = match relation_of(graph.nodes, unit, edge) {
            None => None,
            Some(relation) => neighbour_of(graph.nodes, unit, relation),
        };
        if let Some((other, path)) = next {
            noting_adds_one(before, other, path, records_held(graph.nodes, other));
            symbols_stand_in_places(graph.nodes, other, graph.nodes.len() as int);
        }
        assert forall|k: int, other: SourceUnitId, far: NodeModel|
            0 <= k < count && #[trigger] leads_to(graph, unit, graph.edges[k], other, far) implies is_among(
            after,
            other,
        ) by {
            if k < count - 1 {
                assert(is_among(before, other));
                let i = choose|i: int| 0 <= i < before.len() && (#[trigger] before[i]).source_unit == other;
                if next is Some {
                    assert(after.contains(before[i]));
                    let j = choose|j: int| 0 <= j < after.len() && after[j] == before[i];
                    assert(after[j].source_unit == other);
                }
            } else {
                a_relation_reaches_its_far_end(graph, unit, edge, other, far);
            }
        }
        assert forall|i: int| 0 <= i < after.len() implies is_led_to(
            graph,
            unit,
            count,
            #[trigger] after[i],
        ) by {
            if before.contains(after[i]) {
                let j = choose|j: int| 0 <= j < before.len() && before[j] == after[i];
                assert(is_led_to(graph, unit, count - 1, before[j]));
                let (k, far) = choose|k: int, far: NodeModel|
                    0 <= k < count - 1 && #[trigger] leads_to(
                        graph,
                        unit,
                        graph.edges[k],
                        after[i].source_unit,
                        far,
                    ) && says_under(far, "path"@, after[i].path);
                assert(leads_to(graph, unit, graph.edges[k], after[i].source_unit, far));
            } else {
                let (other, path) = next->0;
                let relation = relation_of(graph.nodes, unit, edge)->0;
                let far = a_neighbour_is_led_to(graph, unit, edge, relation, other, path);
                assert(leads_to(graph, unit, graph.edges[count - 1], other, far));
            }
        }
    }
}

/// A packet names every unit that an edge leads to from its own, in whichever direction the
/// edge runs, as long as there are no more than it may summarize. It names no other, each once
/// and in the order of their identifiers, with how many records it holds.
pub proof fn a_packet_names_every_neighbour(
    graph: GraphModel,
    unit: SourceUnitId,
    excerpts: Seq<ExcerptModel>,
    k: int,
    other: SourceUnitId,
    far: NodeModel,
)
    requires
        0 <= k < graph.edges.len(),
    ensures
        ({
            let found = packet_of(graph, unit, excerpts).neighboring_units;
            &&& leads_to(graph, unit, graph.edges[k], other, far) && found.len()
                < MAX_NEIGHBOURING_UNITS ==> is_among(found, other)
            &&& in_order(found)
            &&& forall|i: int|
                0 <= i < found.len() ==> is_led_to(
                    graph,
                    unit,
                    graph.edges.len() as int,
                    #[trigger] found[i],
                )
        }),
{
    neighbours_are_led_to(graph, unit, graph.edges.len() as int);
    let all = neighbours_of(graph, unit, graph.edges.len() as int);
    let found = packet_of(graph, unit, excerpts).neighboring_units;
    assert forall|i: int| 0 <= i < found.len() implies is_led_to(
        graph,
        unit,
        graph.edges.len() as int,
        #[trigger] found[i],
    ) by {
        assert(found[i] == all[i]);
    }
    assert forall|i: int, j: int| 0 <= i < j < found.len() implies bytes_precede(
        (#[trigger] found[i]).source_unit@,
        (#[trigger] found[j]).source_unit@,
    ) by {
        assert(found[i] == all[i] && found[j] == all[j]);
    }
}

/// The other end of an edge with exactly one end in a unit is a neighbour, whichever way the
/// edge runs, where an analyzer first derived it from another unit.
pub proof fn either_direction_reaches_a_neighbour(
    graph: GraphModel,
    unit: SourceUnitId,
    excerpts: Seq<ExcerptModel>,
    k: int,
    near: LocalNodeId,
    far: NodeModel,
    other: SourceUnitId,
)
    requires
        0 <= k < graph.edges.len(),
        belongs(graph.nodes, unit, near),
        !belongs(graph.nodes, unit, far.id),
        is_first_node(graph.nodes, far.id, far),
        is_first_unit(far, other),
        other != unit,
        ({
            let edge = graph.edges[k];
            ||| edge.source == ReferenceModel::Local(near) && edge.target == ReferenceModel::Local(
                far.id,
            )
            ||| edge.source == ReferenceModel::Local(far.id) && edge.target
                == ReferenceModel::Local(near)
        }),
        packet_of(graph, unit, excerpts).neighboring_units.len() < MAX_NEIGHBOURING_UNITS,
    ensures
        is_among(packet_of(graph, unit, excerpts).neighboring_units, other),
{
    let edge = graph.edges[k];
    if edge.source == ReferenceModel::Local(near) && edge.target == ReferenceModel::Local(far.id) {
        assert(is_of_unit(graph, unit, edge, near, far.id));
    } else {
        assert(is_of_unit(graph, unit, edge, far.id, near));
    }
    assert(leads_to(graph, unit, edge, other, far));
    a_packet_names_every_neighbour(graph, unit, excerpts, k, other, far);
}

// -- Excerpts ----------------------------------------------------------------------

/// An excerpt within the limit stays as it is. A longer one keeps its path and its place and
/// says that it was cut, wherever it was cut.
pub proof fn a_cut_excerpt_stays_where_it_was(excerpt: ExcerptModel)
    ensures
        cut(excerpt).path == excerpt.path,
        cut(excerpt).range == excerpt.range,
        excerpt.truncated ==> cut(excerpt).truncated,
        vstd::utf8::encode_utf8(excerpt.text).len() <= crate::packet::MAX_EXCERPT_BYTES ==> cut(
            excerpt,
        ) == excerpt,
        vstd::utf8::encode_utf8(excerpt.text).len() > crate::packet::MAX_EXCERPT_BYTES ==> cut(
            excerpt,
        ).truncated,
{
}

} // verus!
