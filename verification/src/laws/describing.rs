//! What the procedures and functions of the namespace say of a graph and its records.

use crate::contribution::ContributionModel;
use crate::cypher::QueryErrorModel;
use crate::decimal::lowered;
use crate::evaluate::called;
use crate::evaluate::holder;
use crate::evaluate::in_namespace;
use crate::evaluate::World;
use crate::evidence::EvidenceModel;
use crate::evidence::SourceRange;
use crate::graph::GraphModel;
use crate::laws::changing::edge_stands;
use crate::laws::changing::node_stands;
use crate::locator::scheme_of;
use crate::procedure::contributions_of;
use crate::procedure::evidence_in;
use crate::procedure::evidence_procedure;
use crate::procedure::evidence_rows_of;
use crate::procedure::function_value;
use crate::procedure::links_procedure;
use crate::procedure::procedure_named;
use crate::procedure::procedure_rows;
use crate::procedure::refresh_procedure;
use crate::procedure::status_procedure;
use crate::procedure::ContextModel;
use crate::procedure::ProcedureModel;
use crate::value::QueryModel;
use crate::value::ScopedNode;
use vstd::prelude::*;

verus! {

/// A text, or null where there is none.
pub open spec fn text_or_null(text: Option<Seq<char>>) -> QueryModel {
    match text {
        Some(found) => QueryModel::Text(found),
        None => QueryModel::Null,
    }
}

/// Whether a row holds a value in the column of a name.
pub open spec fn holds_in(
    procedure: ProcedureModel,
    row: Seq<QueryModel>,
    column: Seq<char>,
    value: QueryModel,
) -> bool {
    exists|i: int|
        0 <= i < procedure.columns.len() && i < row.len() && (#[trigger] procedure.columns[i])
            == column && row[i] == value
}

proof fn procedure_words()
    ensures
        "nostdb.links"@ != "nostdb.build_status"@,
        "nostdb.links"@ != "nostdb.evidence"@,
        "nostdb.build_status"@ != "nostdb.evidence"@,
{
    reveal_strlit("nostdb.links");
    reveal_strlit("nostdb.build_status");
    reveal_strlit("nostdb.evidence");
    assert("nostdb.links"@.len() == 12 && "nostdb.build_status"@.len() == 19
        && "nostdb.evidence"@.len() == 15);
}

/// `nostdb.links` has one row for each declared link, in their order, which says its locator,
/// its alias, and whether it is remote.
pub proof fn links_are_listed(graph: GraphModel, context: ContextModel, range: SourceRange, k: int)
    requires
        0 <= k < graph.links.len(),
    ensures
        procedure_rows(links_procedure(), Seq::empty(), graph, context, range) matches Ok(rows)
            && rows.len() == graph.links.len() && holds_in(
            links_procedure(),
            rows[k],
            "source"@,
            QueryModel::Text(graph.links[k].source),
        ) && holds_in(
            links_procedure(),
            rows[k],
            "alias"@,
            text_or_null(graph.links[k].alias),
        ) && holds_in(
            links_procedure(),
            rows[k],
            "remote"@,
            QueryModel::Boolean(scheme_of(graph.links[k].source) is Some),
        ),
{
    procedure_words();
    let columns = links_procedure().columns;
    assert(columns[0] == "source"@ && columns[1] == "alias"@ && columns[2] == "remote"@);
}

/// `nostdb.build_status` has one row, which says the generation, and how many nodes, edges and
/// links there are.
pub proof fn the_status_counts_records(graph: GraphModel, context: ContextModel, range: SourceRange)
    ensures
        procedure_rows(status_procedure(), Seq::empty(), graph, context, range) matches Ok(rows)
            && rows.len() == 1 && holds_in(
            status_procedure(),
            rows[0],
            "nodes"@,
            QueryModel::Integer(graph.nodes.len() as i64),
        ) && holds_in(
            status_procedure(),
            rows[0],
            "edges"@,
            QueryModel::Integer(graph.edges.len() as i64),
        ) && holds_in(
            status_procedure(),
            rows[0],
            "links"@,
            QueryModel::Integer(graph.links.len() as i64),
        ) && holds_in(
            status_procedure(),
            rows[0],
            "database_generation"@,
            match context.generation {
                Some(generation) => QueryModel::Integer(generation as i64),
                None => QueryModel::Null,
            },
        ),
{
    procedure_words();
    let columns = status_procedure().columns;
    assert(columns[0] == "database_generation"@ && columns[1] == "nodes"@ && columns[2] == "edges"@
        && columns[3] == "links"@);
}

/// A procedure takes as many arguments as it names. One that needs what is not there is refused
/// whatever it is given.
pub proof fn a_procedure_takes_its_arguments(
    procedure: ProcedureModel,
    arguments: Seq<QueryModel>,
    graph: GraphModel,
    context: ContextModel,
    range: SourceRange,
)
    ensures
        arguments.len() != procedure.arguments ==> procedure_rows(
            procedure,
            arguments,
            graph,
            context,
            range,
        ) is Err,
        procedure.capability is Some ==> procedure_rows(
            procedure,
            arguments,
            graph,
            context,
            range,
        ) is Err,
        links_procedure().arguments == 0 && status_procedure().arguments == 0
            && evidence_procedure().arguments == 1,
        refresh_procedure().capability is Some,
{
}

/// A procedure is found by its name, in whatever case that is written.
pub proof fn a_procedure_is_found_by_its_name(name: Seq<char>)
    ensures
        procedure_named(name) matches Some(found) ==> found.name == lowered(name),
        lowered(name) == "nostdb.links"@ || lowered(name) == "nostdb.build_status"@ || lowered(name)
            == "nostdb.evidence"@ || lowered(name) == "nostdb.refresh_links"@ <==> procedure_named(
            name,
        ) is Some,
{
}

// -- Evidence ----------------------------------------------------------------------

/// Whether a piece of evidence is one of a contribution.
pub open spec fn is_evidence_of(entries: Seq<ContributionModel>, item: EvidenceModel) -> bool {
    exists|k: int| 0 <= k < entries.len() && (#[trigger] entries[k]).evidence.contains(item)
}

proof fn evidence_is_that_of_contributions(
    entries: Seq<ContributionModel>,
    count: int,
    item: EvidenceModel,
)
    requires
        0 <= count <= entries.len(),
    ensures
        evidence_in(entries, count).contains(item) <==> exists|k: int|
            0 <= k < count && (#[trigger] entries[k]).evidence.contains(item),
    decreases count,
{
    if count > 0 {
        evidence_is_that_of_contributions(entries, count - 1, item);
        crate::laws::rows::joined_contains(
            evidence_in(entries, count - 1),
            entries[count - 1].evidence,
            item,
        );
        if entries[count - 1].evidence.contains(item) {
            assert(entries[count - 1].evidence.contains(item));
        }
    }
}

/// The contributions of a record are those that it carries. A handle of a record that is not
/// there has none, and what is no record is refused.
pub proof fn a_record_carries_its_contributions(graph: GraphModel, bound: QueryModel, k: int)
    ensures
        bound matches QueryModel::Node(handle) ==> (node_stands(graph.nodes, handle.id, k)
            ==> contributions_of(bound, graph) == Some(graph.nodes[k].contributions)),
        bound matches QueryModel::Relationship(handle) ==> (edge_stands(graph.edges, handle.id, k)
            ==> contributions_of(bound, graph) == Some(graph.edges[k].contributions)),
        bound == QueryModel::Null ==> contributions_of(bound, graph) == Some(
            Seq::<ContributionModel>::empty(),
        ),
        !(bound is Node) && !(bound is Relationship) && bound != QueryModel::Null
            ==> contributions_of(bound, graph) is None,
{
    if let QueryModel::Node(handle) = bound {
        if node_stands(graph.nodes, handle.id, k) {
            crate::laws::changing::node_is_found(graph.nodes, handle.id, k, 0);
        }
    }
    if let QueryModel::Relationship(handle) = bound {
        if edge_stands(graph.edges, handle.id, k) {
            crate::laws::changing::edge_is_found(graph.edges, handle.id, k, 0);
        }
    }
}

/// `nostdb.evidence` has one row for each piece of evidence of a record, as long as there are no
/// more than one call yields, and it says what that piece states.
pub proof fn evidence_is_listed(
    graph: GraphModel,
    context: ContextModel,
    range: SourceRange,
    bound: QueryModel,
    entries: Seq<ContributionModel>,
    item: EvidenceModel,
)
    requires
        contributions_of(bound, graph) == Some(entries),
        is_evidence_of(entries, item),
        evidence_in(entries, entries.len() as int).len() <= 256,
    ensures
        procedure_rows(evidence_procedure(), seq![bound], graph, context, range) matches Ok(rows)
            && rows.len() == evidence_in(entries, entries.len() as int).len() && exists|i: int|
            0 <= i < rows.len() && states_what(#[trigger] rows[i], item),
{
    procedure_words();
    reveal_strlit("nostdb.evidence");
    let items = evidence_in(entries, entries.len() as int);
    evidence_is_that_of_contributions(entries, entries.len() as int, item);
    let i = choose|i: int| 0 <= i < items.len() && items[i] == item;
    let rows = evidence_rows_of(items);
    assert(procedure_rows(evidence_procedure(), seq![bound], graph, context, range) == Ok::<
        Seq<Seq<QueryModel>>,
        QueryErrorModel,
    >(rows));
    let columns = evidence_procedure().columns;
    assert(columns[0] == "source"@ && columns[1] == "path"@ && columns[2] == "revision"@
        && columns[3] == "digest"@ && columns[4] == "producer"@ && columns[5]
        == "producer_version"@);
    assert(states_what(rows[i], item));
}

/// Whether a row says what a piece of evidence states.
pub open spec fn states_what(row: Seq<QueryModel>, item: EvidenceModel) -> bool {
    let procedure = evidence_procedure();
    &&& row.len() == procedure.columns.len()
    &&& holds_in(procedure, row, "source"@, QueryModel::Text(item.source))
    &&& holds_in(procedure, row, "path"@, text_or_null(item.path))
    &&& holds_in(procedure, row, "revision"@, text_or_null(item.resolved_revision))
    &&& holds_in(procedure, row, "digest"@, QueryModel::Text(item.content_digest))
    &&& holds_in(procedure, row, "producer"@, QueryModel::Text(item.producer))
    &&& holds_in(procedure, row, "producer_version"@, QueryModel::Text(item.producer_version))
}

// -- Functions ---------------------------------------------------------------------

proof fn namespace_words()
    ensures
        in_namespace("nostdb.source"@) && in_namespace("nostdb.link_alias"@) && in_namespace(
            "nostdb.source_location"@,
        ) && in_namespace("nostdb.source_revision"@) && in_namespace("nostdb.is_available"@),
        "nostdb.source"@ != "nostdb.link_alias"@,
        "nostdb.source_location"@ != "nostdb.source"@ && "nostdb.source_location"@
            != "nostdb.link_alias"@,
        "nostdb.source_revision"@ != "nostdb.source"@ && "nostdb.source_revision"@
            != "nostdb.link_alias"@,
        "nostdb.source_revision"@ != "nostdb.source_location"@,
{
    reveal_strlit("nostdb.");
    reveal_strlit("nostdb.source");
    reveal_strlit("nostdb.link_alias");
    reveal_strlit("nostdb.source_location");
    reveal_strlit("nostdb.source_revision");
    reveal_strlit("nostdb.is_available");
    assert("nostdb.source"@.take(7) =~= "nostdb."@);
    assert("nostdb.link_alias"@.take(7) =~= "nostdb."@);
    assert("nostdb.source_location"@.take(7) =~= "nostdb."@);
    assert("nostdb.source_revision"@.take(7) =~= "nostdb."@);
    assert("nostdb.is_available"@.take(7) =~= "nostdb."@);
    assert("nostdb.source"@.len() == 13 && "nostdb.link_alias"@.len() == 17
        && "nostdb.source_location"@.len() == 22 && "nostdb.source_revision"@.len() == 22);
    assert("nostdb.source_location"@[14] == 'l' && "nostdb.source_revision"@[14] == 'r');
}

/// The source of a record is the locator that its database was opened with, and what the
/// database calls itself where it is the root. Its alias is that of the first link with the
/// locator, and null for the root.
pub proof fn a_record_says_where_it_is_from(
    world: World,
    name: Seq<char>,
    handle: ScopedNode,
    k: int,
)
    requires
        handle.source <= world.linked.len(),
    ensures
        lowered(name) == "nostdb.source"@ && handle.source > 0 ==> called(
            world,
            name,
            seq![QueryModel::Node(handle)],
        ) == Ok::<QueryModel, QueryErrorModel>(
            QueryModel::Text(world.linked[handle.source - 1].0),
        ),
        lowered(name) == "nostdb.source"@ && handle.source == 0 ==> called(
            world,
            name,
            seq![QueryModel::Node(handle)],
        ) == Ok::<QueryModel, QueryErrorModel>(text_or_null(world.context.source)),
        lowered(name) == "nostdb.link_alias"@ && handle.source == 0 ==> called(
            world,
            name,
            seq![QueryModel::Node(handle)],
        ) == Ok::<QueryModel, QueryErrorModel>(QueryModel::Null),
        lowered(name) == "nostdb.link_alias"@ && handle.source > 0 && 0 <= k
            < world.root.links.len() && world.root.links[k].source == world.linked[handle.source
            - 1].0 && (forall|j: int|
            0 <= j < k ==> (#[trigger] world.root.links[j]).source != world.linked[handle.source
                - 1].0) ==> called(world, name, seq![QueryModel::Node(handle)]) == Ok::<
            QueryModel,
            QueryErrorModel,
        >(text_or_null(world.root.links[k].alias)),
{
    namespace_words();
    let values = seq![QueryModel::Node(handle)];
    assert(values[0] == QueryModel::Node(handle));
    if handle.source > 0 && 0 <= k < world.root.links.len() && world.root.links[k].source
        == world.linked[handle.source - 1].0 && (forall|j: int|
        0 <= j < k ==> (#[trigger] world.root.links[j]).source != world.linked[handle.source - 1].0) {
        the_link_is_found(world.root.links, world.linked[handle.source - 1].0, k, 0);
    }
}

proof fn the_link_is_found(
    links: Seq<crate::link::LinkModel>,
    locator: Seq<char>,
    k: int,
    at: int,
)
    requires
        0 <= at <= k < links.len(),
        links[k].source == locator,
        forall|j: int| 0 <= j < k ==> (#[trigger] links[j]).source != locator,
    ensures
        crate::nost::export::find_link(links, locator, at) == Some(k),
    decreases k - at,
{
    if at < k {
        assert(links[at].source != locator);
        the_link_is_found(links, locator, k, at + 1);
    }
}

/// A record's location and revision are those of the first piece of evidence of its first
/// contribution, and null where it has none. A record that is there is available. Of null
/// everything is null.
pub proof fn a_record_says_what_its_evidence_says(
    name: Seq<char>,
    graph: GraphModel,
    context: ContextModel,
    range: SourceRange,
    handle: ScopedNode,
    k: int,
)
    requires
        node_stands(graph.nodes, handle.id, k),
    ensures
        ({
            let entries = graph.nodes[k].contributions;
            let value = function_value(
                name,
                seq![QueryModel::Node(handle)],
                graph,
                context,
                range,
            );
            let known = entries.len() > 0 && entries[0].evidence.len() > 0;
            &&& lowered(name) == "nostdb.source_location"@ ==> value == Ok::<
                QueryModel,
                QueryErrorModel,
            >(
                if known {
                    text_or_null(entries[0].evidence[0].path)
                } else {
                    QueryModel::Null
                },
            )
            &&& lowered(name) == "nostdb.source_revision"@ ==> value == Ok::<
                QueryModel,
                QueryErrorModel,
            >(
                if known {
                    text_or_null(entries[0].evidence[0].resolved_revision)
                } else {
                    QueryModel::Null
                },
            )
            &&& lowered(name) == "nostdb.is_available"@ ==> value == Ok::<
                QueryModel,
                QueryErrorModel,
            >(QueryModel::Boolean(true))
        }),
{
    namespace_words();
    reveal_strlit("nostdb.is_available");
    assert("nostdb.is_available"@.len() == 19);
    reveal_strlit("nostdb.source");
    reveal_strlit("nostdb.link_alias");
    reveal_strlit("nostdb.source_location");
    reveal_strlit("nostdb.source_revision");
    let values = seq![QueryModel::Node(handle)];
    assert(values[0] == QueryModel::Node(handle));
    a_record_carries_its_contributions(graph, values[0], k);
}

/// A function is asked about a record in the database that holds it.
pub proof fn a_record_is_looked_up_where_it_is(world: World, handle: ScopedNode, k: int)
    ensures
        handle.source == 0 ==> holder(world, seq![QueryModel::Node(handle)]) == world.root,
        0 < handle.source <= world.linked.len() ==> holder(world, seq![QueryModel::Node(handle)])
            == world.linked[handle.source - 1].1,
{
    let values = seq![QueryModel::Node(handle)];
    assert(values[0] == QueryModel::Node(handle));
}

} // verus!
