//! The order of declarations does not matter to conversion.

use crate::contribution::Contribution;
use crate::contribution::ContributionModel;
use crate::graph::Edge;
use crate::graph::EdgeModel;
use crate::graph::GraphModel;
use crate::graph::Node;
use crate::graph::NodeModel;
use crate::graph::ReferenceModel;
use crate::id::LocalEdgeId;
use crate::id::LocalNodeId;
use crate::id::bytes_precede_total;
use crate::link::Link;
use crate::link::LinkModel;
use crate::name::PropertyKey;
use crate::name::name_fault;
use crate::order::Ordered;
use crate::order::sorted;
use crate::order::sorted_is_in_order;
use crate::order::sorted_keeps_items;
use crate::property::PropertyModel;
use crate::property::PropertyValue;
use crate::schema::Schema;
use crate::schema::SchemaField;
use crate::schema::SchemaFieldModel;
use crate::schema::SchemaModel;
use crate::text::precedes_total;
use super::EdgeDeclarationModel;
use super::EndpointModel;
use super::EvidenceBlockModel;
use super::EvidenceFieldModel;
use super::LANGUAGE_VERSION;
use super::LinkDeclarationModel;
use super::NodeDeclarationModel;
use super::RecordBodyModel;
use super::SchemaDeclarationModel;
use super::SourceFileModel;
use super::Spanned;
use super::ValueModel;
use super::convert::Build;
use super::convert::ConversionErrorModel;
use super::convert::Parts;
use super::convert::canonical_node;
use super::convert::contributions_from;
use super::convert::edges_built;
use super::convert::evidence_from;
use super::convert::fields_from;
use super::convert::find_field;
use super::convert::find_name;
use super::convert::graph_from;
use super::convert::label_items;
use super::convert::is_unnamed;
use super::convert::labels_from;
use super::convert::leaves_open;
use super::convert::link_from;
use super::convert::links_from;
use super::convert::names_nobody;
use super::convert::no_parts;
use super::convert::nodes_built;
use super::convert::part_added;
use super::convert::parts_from;
use super::convert::parts_of;
use super::convert::property_from;
use super::convert::schema_from;
use super::convert::schemas_from;
use super::convert::text_of_key;
use super::convert::word_of_key;
use super::validate::id_fault;
use vstd::multiset::group_multiset_axioms;
use vstd::prelude::*;
use vstd::seq_lib::group_to_multiset_ensures;

verus! {

// -- Lists in another order --------------------------------------------------------

/// Whether one list holds what another holds, in any order.
pub open spec fn reordered<A>(left: Seq<A>, right: Seq<A>) -> bool {
    left.to_multiset() == right.to_multiset()
}

proof fn reordered_hold_the_same<A>(left: Seq<A>, right: Seq<A>, item: A)
    requires
        reordered(left, right),
    ensures
        left.len() == right.len(),
        left.contains(item) == right.contains(item),
{
    broadcast use group_to_multiset_ensures;

    assert(left.to_multiset().len() == right.to_multiset().len());
    assert(left.to_multiset().count(item) == right.to_multiset().count(item));
}

/// What is made of each item stays the same where the items change places.
proof fn reordered_stay_so<A, B>(left: Seq<A>, right: Seq<A>, made: spec_fn(A) -> B)
    requires
        reordered(left, right),
    ensures
        reordered(left.map_values(made), right.map_values(made)),
    decreases right.len(),
{
    broadcast use group_to_multiset_ensures;
    broadcast use group_multiset_axioms;

    if right.len() == 0 {
        reordered_hold_the_same(left, right, arbitrary());
        assert(left.map_values(made) =~= right.map_values(made));
    } else {
        let last = right.last();
        let front = right.drop_last();
        assert(right =~= front.push(last));
        assert(right.contains(last)) by {
            assert(right[right.len() - 1] == last);
        }
        reordered_hold_the_same(left, right, last);
        let at = choose|at: int| 0 <= at < left.len() && left[at] == last;
        let rest = left.remove(at);
        assert(rest.to_multiset() =~= front.to_multiset());
        reordered_stay_so(rest, front, made);
        assert(left =~= rest.insert(at, last));
        assert(left.map_values(made) =~= rest.map_values(made).insert(at, made(last)));
        assert(right.map_values(made) =~= front.map_values(made).push(made(last)));
    }
}

/// Whether of any two items one comes before the other.
pub open spec fn apart<T: Ordered>(items: Seq<T::V>) -> bool {
    forall|i: int, j: int|
        0 <= i < j < items.len() ==> T::before(#[trigger] items[i], #[trigger] items[j])
            || T::before(items[j], items[i])
}

proof fn apart_items_differ<T: Ordered>(items: Seq<T::V>)
    requires
        apart::<T>(items),
    ensures
        items.no_duplicates(),
{
    assert forall|i: int, j: int| 0 <= i < items.len() && 0 <= j < items.len() && i != j implies items[i]
        != items[j] by {
        let first = if i < j {
            i
        } else {
            j
        };
        let second = if i < j {
            j
        } else {
            i
        };
        assert(T::before(items[first], items[second]) || T::before(items[second], items[first]));
        if items[i] == items[j] {
            T::before_is_asymmetric(items[i], items[j]);
        }
    }
}

/// Whether each item comes before those behind it.
spec fn ascending<T: Ordered>(items: Seq<T::V>) -> bool {
    forall|i: int, j: int|
        0 <= i < j < items.len() ==> T::before(#[trigger] items[i], #[trigger] items[j])
}

proof fn sorted_apart_ascends<T: Ordered>(items: Seq<T::V>)
    requires
        apart::<T>(items),
    ensures
        ascending::<T>(sorted::<T>(items)),
{
    let found = sorted::<T>(items);
    sorted_is_in_order::<T>(items);
    sorted_keeps_items::<T>(items);
    apart_items_differ::<T>(items);
    items.lemma_multiset_has_no_duplicates();
    found.lemma_multiset_has_no_duplicates_conv();
    assert forall|i: int, j: int| 0 <= i < j < found.len() implies T::before(
        #[trigger] found[i],
        #[trigger] found[j],
    ) by {
        assert(found[i] != found[j]);
        assert(found.contains(found[i]) && found.contains(found[j]));
        reordered_hold_the_same(found, items, found[i]);
        reordered_hold_the_same(found, items, found[j]);
        let a = choose|a: int| 0 <= a < items.len() && items[a] == found[i];
        let b = choose|b: int| 0 <= b < items.len() && items[b] == found[j];
        if a < b {
            assert(T::before(items[a], items[b]) || T::before(items[b], items[a]));
        } else {
            assert(T::before(items[b], items[a]) || T::before(items[a], items[b]));
        }
        assert(!T::before(found[j], found[i]));
    }
}

proof fn ascending_lists_agree<T: Ordered>(left: Seq<T::V>, right: Seq<T::V>)
    requires
        reordered(left, right),
        ascending::<T>(left),
        ascending::<T>(right),
    ensures
        left == right,
    decreases left.len(),
{
    broadcast use group_to_multiset_ensures;
    broadcast use group_multiset_axioms;

    if left.len() == 0 {
        reordered_hold_the_same(left, right, arbitrary());
        assert(left =~= right);
    } else {
        let last = left.last();
        let other = right.last();
        assert(left.contains(last)) by {
            assert(left[left.len() - 1] == last);
        }
        reordered_hold_the_same(left, right, last);
        assert(right.contains(other)) by {
            assert(right[right.len() - 1] == other);
        }
        reordered_hold_the_same(left, right, other);
        let here = choose|k: int| 0 <= k < right.len() && right[k] == last;
        let there = choose|k: int| 0 <= k < left.len() && left[k] == other;
        if last != other {
            assert(T::before(right[here], right[right.len() - 1]));
            assert(T::before(left[there], left[left.len() - 1]));
            T::before_is_asymmetric(last, other);
        }
        let a = left.drop_last();
        let b = right.drop_last();
        assert(left =~= a.push(last));
        assert(right =~= b.push(last));
        assert(a.to_multiset() =~= left.to_multiset().remove(last));
        assert(b.to_multiset() =~= right.to_multiset().remove(last));
        assert(ascending::<T>(a)) by {
            assert forall|i: int, j: int| 0 <= i < j < a.len() implies T::before(
                #[trigger] a[i],
                #[trigger] a[j],
            ) by {
                assert(a[i] == left[i] && a[j] == left[j]);
            }
        }
        assert(ascending::<T>(b)) by {
            assert forall|i: int, j: int| 0 <= i < j < b.len() implies T::before(
                #[trigger] b[i],
                #[trigger] b[j],
            ) by {
                assert(b[i] == right[i] && b[j] == right[j]);
            }
        }
        ascending_lists_agree::<T>(a, b);
    }
}

/// Items that are apart are sorted the same, in whatever order they come.
pub proof fn sorting_forgets_the_order<T: Ordered>(left: Seq<T::V>, right: Seq<T::V>)
    requires
        reordered(left, right),
        apart::<T>(left),
    ensures
        sorted::<T>(left) == sorted::<T>(right),
{
    sorted_keeps_items::<T>(left);
    sorted_keeps_items::<T>(right);
    apart_stay_apart::<T>(left, right);
    sorted_apart_ascends::<T>(left);
    sorted_apart_ascends::<T>(right);
    ascending_lists_agree::<T>(sorted::<T>(left), sorted::<T>(right));
}

proof fn apart_stay_apart<T: Ordered>(left: Seq<T::V>, right: Seq<T::V>)
    requires
        reordered(left, right),
        apart::<T>(left),
    ensures
        apart::<T>(right),
{
    apart_items_differ::<T>(left);
    left.lemma_multiset_has_no_duplicates();
    right.lemma_multiset_has_no_duplicates_conv();
    assert forall|i: int, j: int| 0 <= i < j < right.len() implies T::before(
        #[trigger] right[i],
        #[trigger] right[j],
    ) || T::before(right[j], right[i]) by {
        assert(right[i] != right[j]);
        assert(right.contains(right[i]) && right.contains(right[j]));
        reordered_hold_the_same(left, right, right[i]);
        reordered_hold_the_same(left, right, right[j]);
        let a = choose|a: int| 0 <= a < left.len() && left[a] == right[i];
        let b = choose|b: int| 0 <= b < left.len() && left[b] == right[j];
        if a < b {
            assert(T::before(left[a], left[b]) || T::before(left[b], left[a]));
        } else {
            assert(T::before(left[b], left[a]) || T::before(left[a], left[b]));
        }
    }
}

// -- What a declaration stands for -------------------------------------------------

/// The link a declaration stands for, if it stands for one.
pub open spec fn link_meant(declaration: LinkDeclarationModel) -> Option<LinkModel> {
    match link_from(declaration) {
        Ok(link) => Some(link),
        Err(_) => None,
    }
}

/// The schema a declaration stands for, if it stands for one.
pub open spec fn schema_meant(declaration: SchemaDeclarationModel) -> Option<SchemaModel> {
    match schema_from(declaration) {
        Ok(schema) => Some(schema),
        Err(_) => None,
    }
}

/// The name and the node a declaration that states its identifier stands for, if it stands
/// for one.
pub open spec fn node_meant(declaration: NodeDeclarationModel) -> Option<(Seq<char>, NodeModel)> {
    match parts_of(declaration.record) {
        Err(_) => None,
        Ok(parts) => match parts.id {
            None => None,
            Some(text) => if id_fault(text, true) is Some {
                None
            } else {
                match labels_from(declaration.schemas, parts.extra, declaration.name.range) {
                    Err(_) => None,
                    Ok(labels) => match contributions_from(
                        declaration.record.contributions,
                        0,
                        Seq::empty(),
                    ) {
                        Err(_) => None,
                        Ok(owned) => Some(
                            (
                                declaration.name.value,
                                canonical_node(
                                    LocalNodeId::with_text(text),
                                    labels,
                                    parts.properties,
                                    owned,
                                ),
                            ),
                        ),
                    },
                }
            },
        },
    }
}

/// An edge between named nodes.
pub struct EdgeMeant {
    /// The identifier.
    pub id: LocalEdgeId,
    /// The name of the node it leaves.
    pub source: Seq<char>,
    /// The name of the node it enters.
    pub target: Seq<char>,
    /// The relation.
    pub relation: Seq<char>,
    /// The properties, in order.
    pub properties: Seq<(Seq<char>, PropertyModel)>,
    /// The contributions, in order.
    pub contributions: Seq<ContributionModel>,
}

/// The edge a declaration that states its identifier stands for, if it stands for one.
pub open spec fn edge_meant(declaration: EdgeDeclarationModel) -> Option<EdgeMeant> {
    match parts_of(declaration.record) {
        Err(_) => None,
        Ok(parts) => match (parts.id, declaration.source, declaration.target) {
            (Some(text), EndpointModel::Local(source), EndpointModel::Local(target)) => if id_fault(
                text,
                false,
            ) is Some || name_fault(declaration.relation.value) is Some {
                None
            } else {
                match contributions_from(declaration.record.contributions, 0, Seq::empty()) {
                    Err(_) => None,
                    Ok(owned) => Some(
                        EdgeMeant {
                            id: LocalEdgeId::with_text(text),
                            source: source.value,
                            target: target.value,
                            relation: declaration.relation.value,
                            properties: sorted::<(PropertyKey, PropertyValue)>(parts.properties),
                            contributions: sorted::<Contribution>(owned),
                        },
                    ),
                }
            },
            _ => None,
        },
    }
}

/// What the links of a document stand for.
pub open spec fn links_meant(file: SourceFileModel) -> Seq<Option<LinkModel>> {
    file.links.map_values(|link: LinkDeclarationModel| link_meant(link))
}

/// What the schemas of a document stand for.
pub open spec fn schemas_meant(file: SourceFileModel) -> Seq<Option<SchemaModel>> {
    file.schemas.map_values(|schema: SchemaDeclarationModel| schema_meant(schema))
}

/// What the nodes of a document stand for.
pub open spec fn nodes_meant(file: SourceFileModel) -> Seq<Option<(Seq<char>, NodeModel)>> {
    file.nodes.map_values(|node: NodeDeclarationModel| node_meant(node))
}

/// What the edges of a document stand for.
pub open spec fn edges_meant(file: SourceFileModel) -> Seq<Option<EdgeMeant>> {
    file.edges.map_values(|edge: EdgeDeclarationModel| edge_meant(edge))
}

/// Whether everything stands for something.
pub open spec fn all_meant<A>(found: Seq<Option<A>>) -> bool {
    forall|i: int| 0 <= i < found.len() ==> (#[trigger] found[i]) is Some
}

/// What everything stands for.
pub open spec fn meanings<A>(found: Seq<Option<A>>) -> Seq<A> {
    found.map_values(|item: Option<A>| item->0)
}

/// Whether one of the nodes has a name.
pub open spec fn is_declared(nodes: Seq<(Seq<char>, NodeModel)>, name: Seq<char>) -> bool {
    exists|k: int| 0 <= k < nodes.len() && (#[trigger] nodes[k]).0 == name
}

/// Whether a document says all that conversion needs: every declaration stands for something
/// and every record states its identifier, nothing is declared twice, and every edge lies
/// between declared nodes.
pub open spec fn self_contained(file: SourceFileModel) -> bool {
    let links = meanings(links_meant(file));
    let schemas = meanings(schemas_meant(file));
    let nodes = meanings(nodes_meant(file));
    let edges = meanings(edges_meant(file));
    &&& all_meant(links_meant(file))
    &&& all_meant(schemas_meant(file))
    &&& all_meant(nodes_meant(file))
    &&& all_meant(edges_meant(file))
    &&& forall|i: int, j: int|
        0 <= i < j < links.len() ==> (#[trigger] links[i]).source != (#[trigger] links[j]).source
    &&& forall|i: int, j: int|
        0 <= i < j < schemas.len() ==> (#[trigger] schemas[i]).name != (#[trigger] schemas[j]).name
    &&& forall|i: int, j: int|
        0 <= i < j < nodes.len() ==> (#[trigger] nodes[i]).0 != (#[trigger] nodes[j]).0
            && nodes[i].1.id != nodes[j].1.id
    &&& forall|i: int, j: int|
        0 <= i < j < edges.len() ==> (#[trigger] edges[i]).id != (#[trigger] edges[j]).id
    &&& forall|i: int|
        0 <= i < edges.len() ==> is_declared(nodes, (#[trigger] edges[i]).source) && is_declared(
            nodes,
            edges[i].target,
        )
}

/// Whether two documents declare the same things, each in its own order: their declarations
/// stand for the same links, schemas, nodes and edges.
pub open spec fn same_declarations(left: SourceFileModel, right: SourceFileModel) -> bool {
    &&& left.version.value == right.version.value
    &&& reordered(links_meant(left), links_meant(right))
    &&& reordered(schemas_meant(left), schemas_meant(right))
    &&& reordered(nodes_meant(left), nodes_meant(right))
    &&& reordered(edges_meant(left), edges_meant(right))
}

// -- Conversion by meaning ---------------------------------------------------------

proof fn links_are_converted(file: SourceFileModel, at: int)
    requires
        all_meant(links_meant(file)),
        0 <= at <= file.links.len(),
    ensures
        links_from(file.links, at, meanings(links_meant(file)).take(at)) == Ok::<
            _,
            ConversionErrorModel,
        >(meanings(links_meant(file))),
    decreases file.links.len() - at,
{
    let all = meanings(links_meant(file));
    if at < file.links.len() {
        assert(links_meant(file)[at] is Some);
        assert(all.take(at).push(all[at]) =~= all.take(at + 1));
        links_are_converted(file, at + 1);
    } else {
        assert(all.take(at) =~= all);
    }
}

proof fn schemas_are_converted(file: SourceFileModel, at: int)
    requires
        all_meant(schemas_meant(file)),
        0 <= at <= file.schemas.len(),
    ensures
        schemas_from(file.schemas, at, meanings(schemas_meant(file)).take(at)) == Ok::<
            _,
            ConversionErrorModel,
        >(meanings(schemas_meant(file))),
    decreases file.schemas.len() - at,
{
    let all = meanings(schemas_meant(file));
    if at < file.schemas.len() {
        assert(schemas_meant(file)[at] is Some);
        assert(all.take(at).push(all[at]) =~= all.take(at + 1));
        schemas_are_converted(file, at + 1);
    } else {
        assert(all.take(at) =~= all);
    }
}

/// The nodes that are meant.
spec fn plain_nodes(nodes: Seq<(Seq<char>, NodeModel)>) -> Seq<NodeModel> {
    nodes.map_values(|item: (Seq<char>, NodeModel)| item.1)
}

/// The names of the nodes that are meant, with their identifiers.
spec fn name_table(nodes: Seq<(Seq<char>, NodeModel)>) -> Seq<(Seq<char>, LocalNodeId)> {
    nodes.map_values(|item: (Seq<char>, NodeModel)| (item.0, item.1.id))
}

proof fn nodes_are_converted(file: SourceFileModel, count: int, minted: Seq<Seq<u8>>)
    requires
        all_meant(nodes_meant(file)),
        0 <= count <= file.nodes.len(),
    ensures
        ({
            let nodes = meanings(nodes_meant(file));
            nodes_built(file.nodes, count, minted) == Ok::<_, ConversionErrorModel>(
                Build {
                    nodes: plain_nodes(nodes).take(count),
                    names: name_table(nodes).take(count),
                    edges: Seq::empty(),
                    used: 0,
                },
            )
        }),
    decreases count,
{
    let nodes = meanings(nodes_meant(file));
    let all = plain_nodes(nodes);
    let names = name_table(nodes);
    if count > 0 {
        nodes_are_converted(file, count - 1, minted);
        assert(nodes_meant(file)[count - 1] is Some);
        assert(all.take(count - 1).push(all[count - 1]) =~= all.take(count));
        assert(names.take(count - 1).push(names[count - 1]) =~= names.take(count));
    } else {
        assert(all.take(0) =~= Seq::empty());
        assert(names.take(0) =~= Seq::empty());
    }
}

proof fn name_is_found(names: Seq<(Seq<char>, LocalNodeId)>, count: int, at: int)
    requires
        0 <= at < count <= names.len(),
        forall|i: int, j: int|
            0 <= i < j < names.len() ==> (#[trigger] names[i]).0 != (#[trigger] names[j]).0,
    ensures
        find_name(names, count, names[at].0) == Some(names[at].1),
    decreases count,
{
    if at < count - 1 {
        assert(names[at].0 != names[count - 1].0);
        name_is_found(names, count - 1, at);
    }
}

/// The edge between the nodes that two names stand for.
spec fn edge_between(names: Seq<(Seq<char>, LocalNodeId)>, edge: EdgeMeant) -> EdgeModel {
    EdgeModel {
        id: edge.id,
        source: ReferenceModel::Local(find_name(names, names.len() as int, edge.source)->0),
        target: ReferenceModel::Local(find_name(names, names.len() as int, edge.target)->0),
        relation: edge.relation,
        properties: edge.properties,
        contributions: edge.contributions,
    }
}

/// The edges that are meant, between the nodes that their names stand for.
spec fn edges_between(names: Seq<(Seq<char>, LocalNodeId)>, edges: Seq<EdgeMeant>) -> Seq<EdgeModel> {
    edges.map_values(|edge: EdgeMeant| edge_between(names, edge))
}

proof fn declared_name_is_found(nodes: Seq<(Seq<char>, NodeModel)>, name: Seq<char>)
    requires
        is_declared(nodes, name),
        forall|i: int, j: int|
            0 <= i < j < nodes.len() ==> (#[trigger] nodes[i]).0 != (#[trigger] nodes[j]).0,
    ensures
        find_name(name_table(nodes), nodes.len() as int, name) is Some,
        name_table(nodes).contains(
            (name, find_name(name_table(nodes), nodes.len() as int, name)->0),
        ),
{
    let names = name_table(nodes);
    let k = choose|k: int| 0 <= k < nodes.len() && (#[trigger] nodes[k]).0 == name;
    assert forall|i: int, j: int| 0 <= i < j < names.len() implies (#[trigger] names[i]).0 != (
    #[trigger] names[j]).0 by {
        assert(nodes[i].0 != nodes[j].0);
    }
    name_is_found(names, names.len() as int, k);
    assert(names[k] == (name, names[k].1));
}

proof fn edges_are_converted(file: SourceFileModel, count: int, minted: Seq<Seq<u8>>)
    requires
        self_contained(file),
        0 <= count <= file.edges.len(),
    ensures
        ({
            let nodes = meanings(nodes_meant(file));
            let edges = meanings(edges_meant(file));
            edges_built(file, count, minted) == Ok::<_, ConversionErrorModel>(
                Build {
                    nodes: plain_nodes(nodes),
                    names: name_table(nodes),
                    edges: edges_between(name_table(nodes), edges).take(count),
                    used: 0,
                },
            )
        }),
    decreases count,
{
    let nodes = meanings(nodes_meant(file));
    let names = name_table(nodes);
    let edges = meanings(edges_meant(file));
    let all = edges_between(names, edges);
    if count > 0 {
        edges_are_converted(file, count - 1, minted);
        let declaration = file.edges[count - 1];
        let edge = edges[count - 1];
        assert(edges_meant(file)[count - 1] is Some);
        assert(edge_meant(declaration) == Some(edge));
        declared_name_is_found(nodes, edge.source);
        declared_name_is_found(nodes, edge.target);
        assert(all.take(count - 1).push(all[count - 1]) =~= all.take(count));
    } else {
        nodes_are_converted(file, file.nodes.len() as int, minted);
        assert(plain_nodes(nodes).take(nodes.len() as int) =~= plain_nodes(nodes));
        assert(names.take(nodes.len() as int) =~= names);
        assert(all.take(0) =~= Seq::empty());
    }
}

/// The graph that a document which is self-contained stands for.
spec fn graph_meant(file: SourceFileModel) -> GraphModel {
    let nodes = meanings(nodes_meant(file));
    GraphModel {
        nodes: sorted::<Node>(plain_nodes(nodes)),
        edges: sorted::<Edge>(edges_between(name_table(nodes), meanings(edges_meant(file)))),
        links: sorted::<Link>(meanings(links_meant(file))),
        schemas: sorted::<Schema>(meanings(schemas_meant(file))),
    }
}

proof fn file_is_converted(file: SourceFileModel, minted: Seq<Seq<u8>>)
    requires
        self_contained(file),
        file.version.value == LANGUAGE_VERSION,
    ensures
        graph_from(file, minted) == Ok::<_, ConversionErrorModel>((graph_meant(file), 0nat)),
{
    let edges = edges_between(
        name_table(meanings(nodes_meant(file))),
        meanings(edges_meant(file)),
    );
    links_are_converted(file, 0);
    schemas_are_converted(file, 0);
    edges_are_converted(file, file.edges.len() as int, minted);
    assert(meanings(links_meant(file)).take(0) =~= Seq::empty());
    assert(meanings(schemas_meant(file)).take(0) =~= Seq::empty());
    assert(edges.take(file.edges.len() as int) =~= edges);
}

// -- The law -----------------------------------------------------------------------

proof fn all_meant_stays<A>(left: Seq<Option<A>>, right: Seq<Option<A>>)
    requires
        reordered(left, right),
        all_meant(left),
    ensures
        all_meant(right),
{
    assert forall|i: int| 0 <= i < right.len() implies (#[trigger] right[i]) is Some by {
        assert(right.contains(right[i]));
        reordered_hold_the_same(left, right, right[i]);
        let k = choose|k: int| 0 <= k < left.len() && left[k] == right[i];
        assert(left[k] is Some);
    }
}

/// Whether no two items share what is picked of them.
spec fn picks_differ<A, B>(items: Seq<A>, pick: spec_fn(A) -> B) -> bool {
    forall|i: int, j: int|
        0 <= i < j < items.len() ==> pick(#[trigger] items[i]) != pick(#[trigger] items[j])
}

proof fn picks_still_differ<A, B>(left: Seq<A>, right: Seq<A>, pick: spec_fn(A) -> B)
    requires
        reordered(left, right),
        picks_differ(left, pick),
    ensures
        picks_differ(right, pick),
{
    let a = left.map_values(pick);
    let b = right.map_values(pick);
    reordered_stay_so(left, right, pick);
    assert(a.no_duplicates()) by {
        assert forall|i: int, j: int| 0 <= i < a.len() && 0 <= j < a.len() && i != j implies a[i]
            != a[j] by {
            if i < j {
                assert(pick(left[i]) != pick(left[j]));
            } else {
                assert(pick(left[j]) != pick(left[i]));
            }
        }
    }
    a.lemma_multiset_has_no_duplicates();
    b.lemma_multiset_has_no_duplicates_conv();
    assert forall|i: int, j: int| 0 <= i < j < right.len() implies pick(#[trigger] right[i])
        != pick(#[trigger] right[j]) by {
        assert(b[i] != b[j]);
    }
}

proof fn self_contained_stays(left: SourceFileModel, right: SourceFileModel)
    requires
        same_declarations(left, right),
        self_contained(left),
    ensures
        self_contained(right),
{
    all_meant_stays(links_meant(left), links_meant(right));
    all_meant_stays(schemas_meant(left), schemas_meant(right));
    all_meant_stays(nodes_meant(left), nodes_meant(right));
    all_meant_stays(edges_meant(left), edges_meant(right));
    meanings_are_reordered(left, right);
    let links = meanings(links_meant(right));
    let schemas = meanings(schemas_meant(right));
    let nodes = meanings(nodes_meant(right));
    let edges = meanings(edges_meant(right));
    let old_nodes = meanings(nodes_meant(left));
    let old_edges = meanings(edges_meant(left));
    let locator = |link: LinkModel| link.source;
    picks_still_differ(meanings(links_meant(left)), links, locator);
    assert forall|i: int, j: int| 0 <= i < j < links.len() implies (#[trigger] links[i]).source != (
    #[trigger] links[j]).source by {
        assert(locator(links[i]) != locator(links[j]));
    }
    let schema_name = |schema: SchemaModel| schema.name;
    picks_still_differ(meanings(schemas_meant(left)), schemas, schema_name);
    assert forall|i: int, j: int| 0 <= i < j < schemas.len() implies (#[trigger] schemas[i]).name
        != (#[trigger] schemas[j]).name by {
        assert(schema_name(schemas[i]) != schema_name(schemas[j]));
    }
    let node_name = |node: (Seq<char>, NodeModel)| node.0;
    let node_key = |node: (Seq<char>, NodeModel)| node.1.id;
    picks_still_differ(old_nodes, nodes, node_name);
    picks_still_differ(old_nodes, nodes, node_key);
    assert forall|i: int, j: int| 0 <= i < j < nodes.len() implies (#[trigger] nodes[i]).0 != (
    #[trigger] nodes[j]).0 && nodes[i].1.id != nodes[j].1.id by {
        assert(node_name(nodes[i]) != node_name(nodes[j]));
        assert(node_key(nodes[i]) != node_key(nodes[j]));
    }
    let edge_key = |edge: EdgeMeant| edge.id;
    picks_still_differ(old_edges, edges, edge_key);
    assert forall|i: int, j: int| 0 <= i < j < edges.len() implies (#[trigger] edges[i]).id != (
    #[trigger] edges[j]).id by {
        assert(edge_key(edges[i]) != edge_key(edges[j]));
    }
    assert forall|i: int| 0 <= i < edges.len() implies is_declared(
        nodes,
        (#[trigger] edges[i]).source,
    ) && is_declared(nodes, edges[i].target) by {
        assert(edges.contains(edges[i]));
        reordered_hold_the_same(old_edges, edges, edges[i]);
        let k = choose|k: int| 0 <= k < old_edges.len() && old_edges[k] == edges[i];
        assert(is_declared(old_nodes, old_edges[k].source));
        still_declared(old_nodes, nodes, edges[i].source);
        still_declared(old_nodes, nodes, edges[i].target);
    }
}

proof fn still_declared(
    left: Seq<(Seq<char>, NodeModel)>,
    right: Seq<(Seq<char>, NodeModel)>,
    name: Seq<char>,
)
    requires
        reordered(left, right),
        is_declared(left, name),
    ensures
        is_declared(right, name),
{
    let k = choose|k: int| 0 <= k < left.len() && (#[trigger] left[k]).0 == name;
    assert(left.contains(left[k]));
    reordered_hold_the_same(left, right, left[k]);
    let m = choose|m: int| 0 <= m < right.len() && right[m] == left[k];
    assert(right[m].0 == name);
}

proof fn meanings_are_reordered(left: SourceFileModel, right: SourceFileModel)
    requires
        same_declarations(left, right),
    ensures
        reordered(meanings(links_meant(left)), meanings(links_meant(right))),
        reordered(meanings(schemas_meant(left)), meanings(schemas_meant(right))),
        reordered(meanings(nodes_meant(left)), meanings(nodes_meant(right))),
        reordered(meanings(edges_meant(left)), meanings(edges_meant(right))),
{
    reordered_stay_so(links_meant(left), links_meant(right), |item: Option<LinkModel>| item->0);
    reordered_stay_so(
        schemas_meant(left),
        schemas_meant(right),
        |item: Option<SchemaModel>| item->0,
    );
    reordered_stay_so(
        nodes_meant(left),
        nodes_meant(right),
        |item: Option<(Seq<char>, NodeModel)>| item->0,
    );
    reordered_stay_so(edges_meant(left), edges_meant(right), |item: Option<EdgeMeant>| item->0);
}

/// A name stands for the same identifier in either order.
proof fn same_name_same_node(
    left: Seq<(Seq<char>, NodeModel)>,
    right: Seq<(Seq<char>, NodeModel)>,
    name: Seq<char>,
)
    requires
        reordered(left, right),
        is_declared(left, name),
        forall|i: int, j: int|
            0 <= i < j < left.len() ==> (#[trigger] left[i]).0 != (#[trigger] left[j]).0,
        forall|i: int, j: int|
            0 <= i < j < right.len() ==> (#[trigger] right[i]).0 != (#[trigger] right[j]).0,
    ensures
        find_name(name_table(left), left.len() as int, name) == find_name(
            name_table(right),
            right.len() as int,
            name,
        ),
{
    let names = name_table(right);
    let entry = |item: (Seq<char>, NodeModel)| (item.0, item.1.id);
    reordered_stay_so(left, right, entry);
    declared_name_is_found(left, name);
    let found = (name, find_name(name_table(left), left.len() as int, name)->0);
    reordered_hold_the_same(name_table(left), names, found);
    let k = choose|k: int| 0 <= k < names.len() && names[k] == found;
    assert forall|i: int, j: int| 0 <= i < j < names.len() implies (#[trigger] names[i]).0 != (
    #[trigger] names[j]).0 by {
        assert(right[i].0 != right[j].0);
    }
    name_is_found(names, names.len() as int, k);
}

/// A document that is self-contained leaves no identifier to be minted.
proof fn self_contained_leaves_nothing_open(file: SourceFileModel)
    requires
        self_contained(file),
    ensures
        !leaves_open(file),
{
    let nodes = meanings(nodes_meant(file));
    let edges = meanings(edges_meant(file));
    assert forall|i: int| 0 <= i < file.nodes.len() implies !is_unnamed(
        (#[trigger] file.nodes[i]).record,
    ) by {
        assert(nodes_meant(file)[i] is Some);
    }
    assert forall|i: int| 0 <= i < file.edges.len() implies !is_unnamed(
        (#[trigger] file.edges[i]).record,
    ) && !names_nobody(file, file.edges[i].source) && !names_nobody(
        file,
        file.edges[i].target,
    ) by {
        assert(edges_meant(file)[i] is Some);
        assert(edge_meant(file.edges[i]) == Some(edges[i]));
        assert(is_declared(nodes, edges[i].source) && is_declared(nodes, edges[i].target));
        declared_is_somebody(file, edges[i].source);
        declared_is_somebody(file, edges[i].target);
    }
}

proof fn declared_is_somebody(file: SourceFileModel, name: Seq<char>)
    requires
        all_meant(nodes_meant(file)),
        is_declared(meanings(nodes_meant(file)), name),
    ensures
        exists|i: int| 0 <= i < file.nodes.len() && (#[trigger] file.nodes[i]).name.value == name,
{
    let nodes = meanings(nodes_meant(file));
    let k = choose|k: int| 0 <= k < nodes.len() && (#[trigger] nodes[k]).0 == name;
    assert(nodes_meant(file)[k] is Some);
    assert(file.nodes[k].name.value == name);
}

/// Documents that declare the same things in different orders, and are self-contained, stand
/// for the same graph, whatever identifiers are at hand. Neither leaves one to be minted.
pub proof fn declaration_order_does_not_matter(
    left: SourceFileModel,
    right: SourceFileModel,
    minted: Seq<Seq<u8>>,
    more: Seq<Seq<u8>>,
)
    requires
        same_declarations(left, right),
        self_contained(left),
        left.version.value == LANGUAGE_VERSION,
    ensures
        graph_from(left, minted) is Ok,
        graph_from(left, minted) == graph_from(right, more),
        !leaves_open(left),
        !leaves_open(right),
{
    self_contained_stays(left, right);
    self_contained_leaves_nothing_open(left);
    self_contained_leaves_nothing_open(right);
    meanings_are_reordered(left, right);
    file_is_converted(left, minted);
    file_is_converted(right, more);
    let old_nodes = meanings(nodes_meant(left));
    let nodes = meanings(nodes_meant(right));
    let old_edges = meanings(edges_meant(left));
    let edges = meanings(edges_meant(right));
    reordered_stay_so(old_nodes, nodes, |item: (Seq<char>, NodeModel)| item.1);
    let made = |edge: EdgeMeant| edge_between(name_table(old_nodes), edge);
    reordered_stay_so(old_edges, edges, made);
    assert(edges_between(name_table(nodes), edges) =~= edges.map_values(made)) by {
        assert forall|i: int| 0 <= i < edges.len() implies edge_between(
            name_table(nodes),
            #[trigger] edges[i],
        ) == made(edges[i]) by {
            assert(is_declared(nodes, edges[i].source) && is_declared(nodes, edges[i].target));
            same_name_same_node(nodes, old_nodes, edges[i].source);
            same_name_same_node(nodes, old_nodes, edges[i].target);
        }
    }
    nodes_are_apart(plain_nodes(old_nodes));
    edges_are_apart(edges_between(name_table(old_nodes), old_edges));
    links_are_apart(meanings(links_meant(left)));
    schemas_are_apart(meanings(schemas_meant(left)));
    sorting_forgets_the_order::<Node>(plain_nodes(old_nodes), plain_nodes(nodes));
    sorting_forgets_the_order::<Edge>(
        edges_between(name_table(old_nodes), old_edges),
        edges_between(name_table(nodes), edges),
    );
    sorting_forgets_the_order::<Link>(
        meanings(links_meant(left)),
        meanings(links_meant(right)),
    );
    sorting_forgets_the_order::<Schema>(
        meanings(schemas_meant(left)),
        meanings(schemas_meant(right)),
    );
}

proof fn nodes_are_apart(nodes: Seq<NodeModel>)
    requires
        forall|i: int, j: int|
            0 <= i < j < nodes.len() ==> (#[trigger] nodes[i]).id != (#[trigger] nodes[j]).id,
    ensures
        apart::<Node>(nodes),
{
    assert forall|i: int, j: int| 0 <= i < j < nodes.len() implies Node::before(
        #[trigger] nodes[i],
        #[trigger] nodes[j],
    ) || Node::before(nodes[j], nodes[i]) by {
        let a = nodes[i].id;
        let b = nodes[j].id;
        a.length();
        b.length();
        bytes_precede_total(a@, b@);
        if a@ == b@ {
            LocalNodeId::same_bytes(a, b);
        }
    }
}

proof fn edges_are_apart(edges: Seq<EdgeModel>)
    requires
        forall|i: int, j: int|
            0 <= i < j < edges.len() ==> (#[trigger] edges[i]).id != (#[trigger] edges[j]).id,
    ensures
        apart::<Edge>(edges),
{
    assert forall|i: int, j: int| 0 <= i < j < edges.len() implies Edge::before(
        #[trigger] edges[i],
        #[trigger] edges[j],
    ) || Edge::before(edges[j], edges[i]) by {
        let a = edges[i].id;
        let b = edges[j].id;
        a.length();
        b.length();
        bytes_precede_total(a@, b@);
        if a@ == b@ {
            LocalEdgeId::same_bytes(a, b);
        }
    }
}

proof fn links_are_apart(links: Seq<LinkModel>)
    requires
        forall|i: int, j: int|
            0 <= i < j < links.len() ==> (#[trigger] links[i]).source != (
            #[trigger] links[j]).source,
    ensures
        apart::<Link>(links),
{
    assert forall|i: int, j: int| 0 <= i < j < links.len() implies Link::before(
        #[trigger] links[i],
        #[trigger] links[j],
    ) || Link::before(links[j], links[i]) by {
        precedes_total(links[i].source, links[j].source);
    }
}

proof fn schemas_are_apart(schemas: Seq<SchemaModel>)
    requires
        forall|i: int, j: int|
            0 <= i < j < schemas.len() ==> (#[trigger] schemas[i]).name != (
            #[trigger] schemas[j]).name,
    ensures
        apart::<Schema>(schemas),
{
    assert forall|i: int, j: int| 0 <= i < j < schemas.len() implies Schema::before(
        #[trigger] schemas[i],
        #[trigger] schemas[j],
    ) || Schema::before(schemas[j], schemas[i]) by {
        precedes_total(schemas[i].name, schemas[j].name);
    }
}

// -- The order within a block ------------------------------------------------------

/// What one property of a record body carries.
pub enum Slot {
    /// The identifier, as written.
    Id(Seq<char>),
    /// The labels beyond the schema names.
    Labels(Seq<Seq<char>>),
    /// An ordinary property.
    Plain(Seq<char>, PropertyModel),
}

impl Slot {
    /// The key of the property.
    pub open spec fn key(self) -> Seq<char> {
        match self {
            Slot::Id(_) => "id"@,
            Slot::Labels(_) => "labels"@,
            Slot::Plain(key, _) => key,
        }
    }
}

/// What a property carries, if it can be converted.
pub open spec fn slot_of(property: super::PropertyModel) -> Option<Slot> {
    let key = property.key.value;
    if key == "id"@ {
        match property.value.value {
            ValueModel::String(text) => Some(Slot::Id(text)),
            _ => None,
        }
    } else if key == "labels"@ {
        match property.value.value {
            ValueModel::List(items) => match label_items(items, 0, Seq::empty()) {
                Err(_) => None,
                Ok(labels) => Some(Slot::Labels(labels)),
            },
            _ => None,
        }
    } else if name_fault(key) is Some {
        None
    } else {
        match property_from(property.value) {
            Err(_) => None,
            Ok(value) => Some(Slot::Plain(key, value)),
        }
    }
}

/// What a record body carries with one more property.
spec fn with_slot(parts: Parts, slot: Slot) -> Parts {
    match slot {
        Slot::Id(text) => Parts { id: Some(text), ..parts },
        Slot::Labels(labels) => Parts { extra: parts.extra + labels, ..parts },
        Slot::Plain(key, value) => Parts { properties: parts.properties.push((key, value)), ..parts },
    }
}

/// What a record body carries with its first `count` properties.
spec fn gathered(slots: Seq<Slot>, count: int) -> Parts
    decreases count,
{
    if count <= 0 {
        no_parts()
    } else {
        with_slot(gathered(slots, count - 1), slots[count - 1])
    }
}

/// What the properties of a body carry, one by one.
spec fn slots_of(properties: Seq<super::PropertyModel>) -> Seq<Option<Slot>> {
    properties.map_values(|property: super::PropertyModel| slot_of(property))
}

proof fn labels_are_added(items: Seq<Spanned<ValueModel>>, at: int, first: Seq<Seq<char>>, before: Seq<Seq<char>>)
    ensures
        match label_items(items, at, before) {
            Ok(found) => label_items(items, at, first + before) == Ok::<_, ConversionErrorModel>(
                first + found,
            ),
            Err(wrong) => label_items(items, at, first + before) == Err::<Seq<Seq<char>>, _>(wrong),
        },
    decreases items.len() - at,
{
    if 0 <= at < items.len() {
        match items[at].value {
            ValueModel::String(text) => {
                assert((first + before).push(text) =~= first + before.push(text));
                labels_are_added(items, at + 1, first, before.push(text));
            },
            _ => {},
        }
    }
}

proof fn slot_is_added(parts: Parts, property: super::PropertyModel)
    ensures
        slot_of(property) matches Some(slot) ==> part_added(parts, property) == Ok::<
            _,
            ConversionErrorModel,
        >(with_slot(parts, slot)),
        part_added(parts, property) is Ok ==> slot_of(property) is Some,
        slot_of(property) matches Some(slot) ==> slot.key() == property.key.value,
{
    match property.value.value {
        ValueModel::List(items) => {
            labels_are_added(items, 0, parts.extra, Seq::empty());
            assert(parts.extra + Seq::empty() =~= parts.extra);
        },
        _ => {},
    }
}

proof fn parts_are_gathered(properties: Seq<super::PropertyModel>, at: int)
    requires
        all_meant(slots_of(properties)),
        0 <= at <= properties.len(),
    ensures
        ({
            let slots = meanings(slots_of(properties));
            parts_from(properties, at, gathered(slots, at)) == Ok::<_, ConversionErrorModel>(
                gathered(slots, slots.len() as int),
            )
        }),
    decreases properties.len() - at,
{
    let slots = meanings(slots_of(properties));
    if at < properties.len() {
        assert(slots_of(properties)[at] is Some);
        slot_is_added(gathered(slots, at), properties[at]);
        parts_are_gathered(properties, at + 1);
    }
}

proof fn parts_need_every_slot(properties: Seq<super::PropertyModel>, at: int, parts: Parts)
    requires
        0 <= at <= properties.len(),
        parts_from(properties, at, parts) is Ok,
    ensures
        forall|i: int| at <= i < properties.len() ==> slot_of(#[trigger] properties[i]) is Some,
    decreases properties.len() - at,
{
    if at < properties.len() {
        slot_is_added(parts, properties[at]);
        let next = part_added(parts, properties[at])->Ok_0;
        parts_need_every_slot(properties, at + 1, next);
    }
}

/// Whether no two properties share a key.
spec fn slots_apart(slots: Seq<Slot>) -> bool {
    forall|i: int, j: int|
        0 <= i < j < slots.len() ==> (#[trigger] slots[i]).key() != (#[trigger] slots[j]).key()
}

/// What is gathered is what the properties carry: the identifier and the labels from the one
/// property that states them, and each other property.
proof fn gathered_holds(slots: Seq<Slot>, count: int)
    requires
        slots_apart(slots),
        0 <= count <= slots.len(),
    ensures
        ({
            let parts = gathered(slots, count);
            &&& parts.id matches Some(text) ==> exists|k: int|
                0 <= k < count && #[trigger] slots[k] == Slot::Id(text)
            &&& forall|k: int|
                0 <= k < count && (#[trigger] slots[k]) is Id ==> parts.id == Some(slots[k]->Id_0)
            &&& forall|k: int|
                0 <= k < count && (#[trigger] slots[k]) is Labels ==> parts.extra
                    == slots[k]->Labels_0
            &&& (forall|k: int| 0 <= k < count ==> !((#[trigger] slots[k]) is Labels))
                ==> parts.extra == Seq::<Seq<char>>::empty()
            &&& forall|i: int|
                0 <= i < parts.properties.len() ==> exists|k: int|
                    0 <= k < count && #[trigger] slots[k] == Slot::Plain(
                        (#[trigger] parts.properties[i]).0,
                        parts.properties[i].1,
                    )
            &&& forall|i: int, j: int|
                0 <= i < j < parts.properties.len() ==> (#[trigger] parts.properties[i]).0 != (
                #[trigger] parts.properties[j]).0
        }),
    decreases count,
{
    if count > 0 {
        gathered_holds(slots, count - 1);
        let before = gathered(slots, count - 1);
        let parts = gathered(slots, count);
        let slot = slots[count - 1];
        assert forall|k: int| 0 <= k < count - 1 implies (#[trigger] slots[k]).key()
            != slot.key() by {}
        match slot {
            Slot::Id(text) => {},
            Slot::Labels(labels) => {
                assert forall|k: int| 0 <= k < count - 1 implies !((#[trigger] slots[k]) is Labels) by {
                    assert(slots[k].key() != slot.key());
                }
                assert(parts.extra =~= labels);
            },
            Slot::Plain(key, value) => {
                let items = parts.properties;
                assert forall|i: int| 0 <= i < items.len() implies exists|k: int|
                    0 <= k < count && #[trigger] slots[k] == Slot::Plain(
                        (#[trigger] items[i]).0,
                        items[i].1,
                    ) by {
                    if i < before.properties.len() {
                        assert(items[i] == before.properties[i]);
                        let k = choose|k: int|
                            0 <= k < count - 1 && #[trigger] slots[k] == Slot::Plain(
                                before.properties[i].0,
                                before.properties[i].1,
                            );
                        assert(slots[k] == Slot::Plain(items[i].0, items[i].1));
                    } else {
                        assert(slots[count - 1] == Slot::Plain(items[i].0, items[i].1));
                    }
                }
                assert forall|i: int, j: int| 0 <= i < j < items.len() implies (
                #[trigger] items[i]).0 != (#[trigger] items[j]).0 by {
                    assert(items[i] == before.properties[i]);
                    if j < before.properties.len() {
                        assert(items[j] == before.properties[j]);
                    } else {
                        let k = choose|k: int|
                            0 <= k < count - 1 && #[trigger] slots[k] == Slot::Plain(
                                before.properties[i].0,
                                before.properties[i].1,
                            );
                        assert(slots[k].key() != slot.key());
                    }
                }
            },
        }
    }
}

proof fn gathered_counts(slots: Seq<Slot>, count: int, item: (Seq<char>, PropertyModel))
    requires
        0 <= count <= slots.len(),
    ensures
        gathered(slots, count).properties.to_multiset().count(item) == slots.take(
            count,
        ).to_multiset().count(Slot::Plain(item.0, item.1)),
    decreases count,
{
    broadcast use group_to_multiset_ensures;
    broadcast use group_multiset_axioms;

    if count > 0 {
        gathered_counts(slots, count - 1, item);
        let before = slots.take(count - 1);
        assert(slots.take(count) =~= before.push(slots[count - 1]));
    } else {
        assert(slots.take(0) =~= Seq::<Slot>::empty());
        assert(slots.take(0).to_multiset().len() == 0);
    }
}

/// What a record body carries does not depend on the order of its properties, where no key
/// comes twice: it can be converted in the one order where it can in the other, and then
/// carries the same identifier, the same labels and the same properties.
pub proof fn property_order_does_not_matter(
    left: Seq<super::PropertyModel>,
    right: Seq<super::PropertyModel>,
)
    requires
        reordered(left, right),
        forall|i: int, j: int|
            0 <= i < j < left.len() ==> (#[trigger] left[i]).key.value != (
            #[trigger] left[j]).key.value,
        parts_from(left, 0, no_parts()) is Ok,
    ensures
        parts_from(right, 0, no_parts()) is Ok,
        ({
            let a = parts_from(left, 0, no_parts())->Ok_0;
            let b = parts_from(right, 0, no_parts())->Ok_0;
            &&& a.id == b.id
            &&& a.extra == b.extra
            &&& sorted::<(PropertyKey, PropertyValue)>(a.properties) == sorted::<
                (PropertyKey, PropertyValue),
            >(b.properties)
        }),
{
    let pick = |property: super::PropertyModel| slot_of(property);
    parts_need_every_slot(left, 0, no_parts());
    assert(all_meant(slots_of(left))) by {
        assert forall|i: int| 0 <= i < left.len() implies (#[trigger] slots_of(left)[i]) is Some by {
            assert(slot_of(left[i]) is Some);
        }
    }
    reordered_stay_so(left, right, pick);
    all_meant_stays(slots_of(left), slots_of(right));
    let a = meanings(slots_of(left));
    let b = meanings(slots_of(right));
    reordered_stay_so(slots_of(left), slots_of(right), |item: Option<Slot>| item->0);
    parts_are_gathered(left, 0);
    parts_are_gathered(right, 0);
    assert(slots_apart(a)) by {
        assert forall|i: int, j: int| 0 <= i < j < a.len() implies (#[trigger] a[i]).key() != (
        #[trigger] a[j]).key() by {
            assert(slots_of(left)[i] is Some && slots_of(left)[j] is Some);
            slot_is_added(no_parts(), left[i]);
            slot_is_added(no_parts(), left[j]);
            assert(left[i].key.value != left[j].key.value);
        }
    }
    let key = |slot: Slot| slot.key();
    picks_still_differ(a, b, key);
    assert(slots_apart(b)) by {
        assert forall|i: int, j: int| 0 <= i < j < b.len() implies (#[trigger] b[i]).key() != (
        #[trigger] b[j]).key() by {
            assert(key(b[i]) != key(b[j]));
        }
    }
    gathered_agree(a, b);
}

proof fn gathered_agree(left: Seq<Slot>, right: Seq<Slot>)
    requires
        reordered(left, right),
        slots_apart(left),
        slots_apart(right),
    ensures
        ({
            let a = gathered(left, left.len() as int);
            let b = gathered(right, right.len() as int);
            &&& a.id == b.id
            &&& a.extra == b.extra
            &&& sorted::<(PropertyKey, PropertyValue)>(a.properties) == sorted::<
                (PropertyKey, PropertyValue),
            >(b.properties)
        }),
{
    let a = gathered(left, left.len() as int);
    let b = gathered(right, right.len() as int);
    gathered_holds(left, left.len() as int);
    gathered_holds(right, right.len() as int);
    assert(a.id == b.id) by {
        if let Some(text) = a.id {
            let k = choose|k: int| 0 <= k < left.len() && #[trigger] left[k] == Slot::Id(text);
            slot_is_there(left, right, k);
        }
        if let Some(text) = b.id {
            let k = choose|k: int| 0 <= k < right.len() && #[trigger] right[k] == Slot::Id(text);
            slot_is_there(right, left, k);
        }
    }
    assert(a.extra == b.extra) by {
        if exists|k: int| 0 <= k < left.len() && (#[trigger] left[k]) is Labels {
            let k = choose|k: int| 0 <= k < left.len() && (#[trigger] left[k]) is Labels;
            slot_is_there(left, right, k);
        } else if exists|k: int| 0 <= k < right.len() && (#[trigger] right[k]) is Labels {
            let k = choose|k: int| 0 <= k < right.len() && (#[trigger] right[k]) is Labels;
            slot_is_there(right, left, k);
        }
    }
    assert(left.take(left.len() as int) =~= left);
    assert(right.take(right.len() as int) =~= right);
    assert forall|item: (Seq<char>, PropertyModel)|
        #![trigger a.properties.to_multiset().count(item)]
        a.properties.to_multiset().count(item) == b.properties.to_multiset().count(item) by {
        gathered_counts(left, left.len() as int, item);
        gathered_counts(right, right.len() as int, item);
    }
    assert(a.properties.to_multiset() =~= b.properties.to_multiset());
    assert(apart::<(PropertyKey, PropertyValue)>(a.properties)) by {
        assert forall|i: int, j: int| 0 <= i < j < a.properties.len() implies <(
            PropertyKey,
            PropertyValue,
        )>::before(#[trigger] a.properties[i], #[trigger] a.properties[j]) || <(
            PropertyKey,
            PropertyValue,
        )>::before(a.properties[j], a.properties[i]) by {
            precedes_total(a.properties[i].0, a.properties[j].0);
        }
    }
    sorting_forgets_the_order::<(PropertyKey, PropertyValue)>(a.properties, b.properties);
}

proof fn slot_is_there(left: Seq<Slot>, right: Seq<Slot>, k: int)
    requires
        reordered(left, right),
        0 <= k < left.len(),
    ensures
        exists|m: int| 0 <= m < right.len() && #[trigger] right[m] == left[k],
{
    assert(left.contains(left[k]));
    reordered_hold_the_same(left, right, left[k]);
    let m = choose|m: int| 0 <= m < right.len() && right[m] == left[k];
    assert(right[m] == left[k]);
}

/// A node declaration stands for the same node in whatever order its properties come, where
/// no key comes twice.
pub proof fn node_means_the_same(
    left: NodeDeclarationModel,
    properties: Seq<super::PropertyModel>,
)
    requires
        reordered(left.record.properties, properties),
        forall|i: int, j: int|
            0 <= i < j < left.record.properties.len() ==> (
            #[trigger] left.record.properties[i]).key.value != (
            #[trigger] left.record.properties[j]).key.value,
        node_meant(left) is Some,
    ensures
        node_meant(
            NodeDeclarationModel {
                record: RecordBodyModel { properties, ..left.record },
                ..left
            },
        ) == node_meant(left),
{
    property_order_does_not_matter(left.record.properties, properties);
}

/// An edge declaration stands for the same edge in whatever order its properties come, where
/// no key comes twice.
pub proof fn edge_means_the_same(
    left: EdgeDeclarationModel,
    properties: Seq<super::PropertyModel>,
)
    requires
        reordered(left.record.properties, properties),
        forall|i: int, j: int|
            0 <= i < j < left.record.properties.len() ==> (
            #[trigger] left.record.properties[i]).key.value != (
            #[trigger] left.record.properties[j]).key.value,
        edge_meant(left) is Some,
    ensures
        edge_meant(
            EdgeDeclarationModel {
                record: RecordBodyModel { properties, ..left.record },
                ..left
            },
        ) == edge_meant(left),
{
    property_order_does_not_matter(left.record.properties, properties);
}

/// The field a declaration stands for.
spec fn field_meant(field: super::SchemaFieldModel) -> SchemaFieldModel {
    SchemaFieldModel {
        key: field.key.value,
        field_type: field.field_type.value,
        required: !field.optional,
    }
}

proof fn fields_are_converted(fields: Seq<super::SchemaFieldModel>, at: int, before: Seq<SchemaFieldModel>)
    requires
        0 <= at <= fields.len(),
    ensures
        ({
            let named = forall|i: int|
                at <= i < fields.len() ==> name_fault((#[trigger] fields[i]).key.value) is None;
            &&& fields_from(fields, at, before) is Ok <==> named
            &&& named ==> fields_from(fields, at, before) == Ok::<_, ConversionErrorModel>(
                before + fields.skip(at).map_values(
                    |field: super::SchemaFieldModel| field_meant(field),
                ),
            )
        }),
    decreases fields.len() - at,
{
    let made = |field: super::SchemaFieldModel| field_meant(field);
    if at < fields.len() {
        let next = before.push(field_meant(fields[at]));
        fields_are_converted(fields, at + 1, next);
        assert(next + fields.skip(at + 1).map_values(made) =~= before + fields.skip(at).map_values(
            made,
        ));
        if name_fault(fields[at].key.value) is Some {
            assert(!(name_fault(fields[at].key.value) is None));
        }
    } else {
        assert(before + fields.skip(at).map_values(made) =~= before);
    }
}

/// A schema declaration stands for the same schema in whatever order its fields come, where
/// no key comes twice.
pub proof fn schema_means_the_same(
    left: SchemaDeclarationModel,
    fields: Seq<super::SchemaFieldModel>,
)
    requires
        reordered(left.fields, fields),
        forall|i: int, j: int|
            0 <= i < j < left.fields.len() ==> (#[trigger] left.fields[i]).key.value != (
            #[trigger] left.fields[j]).key.value,
        schema_meant(left) is Some,
    ensures
        schema_meant(SchemaDeclarationModel { fields, ..left }) == schema_meant(left),
{
    let made = |field: super::SchemaFieldModel| field_meant(field);
    let none = Seq::<SchemaFieldModel>::empty();
    let a = left.fields.map_values(made);
    let b = fields.map_values(made);
    fields_are_converted(left.fields, 0, none);
    fields_are_converted(fields, 0, none);
    reordered_stay_so(left.fields, fields, made);
    assert forall|i: int| 0 <= i < fields.len() implies name_fault(
        (#[trigger] fields[i]).key.value,
    ) is None by {
        assert(fields.contains(fields[i]));
        reordered_hold_the_same(left.fields, fields, fields[i]);
        let k = choose|k: int| 0 <= k < left.fields.len() && left.fields[k] == fields[i];
        assert(name_fault(left.fields[k].key.value) is None);
    }
    assert(left.fields.skip(0) =~= left.fields);
    assert(fields.skip(0) =~= fields);
    assert(none + a =~= a);
    assert(none + b =~= b);
    assert(apart::<SchemaField>(a)) by {
        assert forall|i: int, j: int| 0 <= i < j < a.len() implies SchemaField::before(
            #[trigger] a[i],
            #[trigger] a[j],
        ) || SchemaField::before(a[j], a[i]) by {
            assert(left.fields[i].key.value != left.fields[j].key.value);
            precedes_total(a[i].key, a[j].key);
        }
    }
    sorting_forgets_the_order::<SchemaField>(a, b);
}

proof fn field_is_found(fields: Seq<EvidenceFieldModel>, key: Seq<char>, at: int)
    requires
        0 <= at <= fields.len(),
    ensures
        match find_field(fields, key, at) {
            Some(k) => at <= k < fields.len() && fields[k].key.value == key,
            None => forall|i: int| at <= i < fields.len() ==> (#[trigger] fields[i]).key.value != key,
        },
    decreases fields.len() - at,
{
    if at < fields.len() && fields[at].key.value != key {
        field_is_found(fields, key, at + 1);
    }
}

proof fn same_field_is_found(
    left: Seq<EvidenceFieldModel>,
    right: Seq<EvidenceFieldModel>,
    key: Seq<char>,
)
    requires
        reordered(left, right),
        forall|i: int, j: int|
            0 <= i < j < left.len() ==> (#[trigger] left[i]).key.value != (
            #[trigger] left[j]).key.value,
    ensures
        text_of_key(left, key) == text_of_key(right, key),
        word_of_key(left, key) == word_of_key(right, key),
{
    field_is_found(left, key, 0);
    field_is_found(right, key, 0);
    if let Some(k) = find_field(left, key, 0) {
        assert(left.contains(left[k]));
        reordered_hold_the_same(left, right, left[k]);
        let m = choose|m: int| 0 <= m < right.len() && right[m] == left[k];
        assert(right[m].key.value == key);
        let n = find_field(right, key, 0)->0;
        assert(right.contains(right[n]));
        reordered_hold_the_same(left, right, right[n]);
        let i = choose|i: int| 0 <= i < left.len() && left[i] == right[n];
        if i != k {
            if i < k {
                assert(left[i].key.value != left[k].key.value);
            } else {
                assert(left[k].key.value != left[i].key.value);
            }
        }
    } else if let Some(n) = find_field(right, key, 0) {
        assert(right.contains(right[n]));
        reordered_hold_the_same(left, right, right[n]);
        let i = choose|i: int| 0 <= i < left.len() && left[i] == right[n];
        assert(left[i].key.value != key);
    }
}

/// An evidence block stands for the same evidence in whatever order its fields come, where no
/// key comes twice.
pub proof fn evidence_means_the_same(
    left: EvidenceBlockModel,
    fields: Seq<EvidenceFieldModel>,
    inherited: Option<(Seq<char>, Seq<char>)>,
)
    requires
        reordered(left.fields, fields),
        forall|i: int, j: int|
            0 <= i < j < left.fields.len() ==> (#[trigger] left.fields[i]).key.value != (
            #[trigger] left.fields[j]).key.value,
    ensures
        evidence_from(EvidenceBlockModel { fields, ..left }, inherited) == evidence_from(
            left,
            inherited,
        ),
{
    same_field_is_found(left.fields, fields, "source"@);
    same_field_is_found(left.fields, fields, "digest"@);
    same_field_is_found(left.fields, fields, "revision"@);
    same_field_is_found(left.fields, fields, "path"@);
    same_field_is_found(left.fields, fields, "range"@);
    same_field_is_found(left.fields, fields, "producer"@);
    same_field_is_found(left.fields, fields, "producer_version"@);
    same_field_is_found(left.fields, fields, "method"@);
    same_field_is_found(left.fields, fields, "confidence"@);
}

} // verus!
