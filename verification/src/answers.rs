//! What holds of the answers to queries.

use crate::big::Relation;
use crate::clauses::Fate;
use crate::clauses::all_matched;
use crate::clauses::asks;
use crate::clauses::patterns_matched;
use crate::clauses::rows_matched;
use crate::cypher::Clause;
use crate::cypher::Expression;
use crate::cypher::NodePattern;
use crate::cypher::Pattern;
use crate::cypher::Projection;
use crate::cypher::ProjectionItem;
use crate::cypher::Query;
use crate::cypher::QueryErrorModel;
use crate::cypher::QueryPart;
use crate::cypher::SortItem;
use crate::cypher::names_of_columns;
use crate::evaluate::World;
use crate::evaluate::evaluated;
use crate::execute::Changed;
use crate::execute::Rows;
use crate::execute::Setting;
use crate::execute::Table;
use crate::execute::all_differ;
use crate::execute::clause_run;
use crate::execute::clauses_run;
use crate::execute::part_run;
use crate::execute::parts_run;
use crate::execute::query_run;
use crate::execute::removes_duplicates;
use crate::execute::unique_rows;
use crate::graph::GraphModel;
use crate::graph::Node;
use crate::graph::NodeModel;
use crate::id::LocalNodeId;
use crate::id::bytes_precede_irreflexive;
use crate::id::bytes_precede_total;
use crate::matching::Partial;
use crate::matching::Scope;
use crate::matching::candidates_in;
use crate::matching::candidates_of;
use crate::matching::matched;
use crate::matching::starts_from;
use crate::mutate::WriteSummary;
use crate::clauses::rows_evaluated;
use crate::evidence::SourceRange;
use crate::execute::patterns_created;
use crate::execute::questions;
use crate::execute::rows_created;
use crate::execute::with_scope;
use crate::mutate::labels_made;
use crate::mutate::node_created;
use crate::mutate::pattern_created;
use crate::mutate::stored_map;
use crate::mutate::unused_by_nodes;
use crate::mutate::PatternModel;
use crate::order::in_order;
use crate::order::Ordered;
use crate::order::place;
use crate::order::place_bounds;
use crate::order::sorted;
use crate::order::sorted_is_in_order;
use crate::order::sorted_keeps_items;
use crate::order::sorted_length;
use crate::projection::Projected;
use crate::projection::ProjectedRow;
use crate::projection::all_calls;
use crate::projection::distinct_rows;
use crate::projection::filtered;
use crate::projection::folded_calls;
use crate::projection::group_row;
use crate::projection::grouped_row;
use crate::projection::grouped_rows;
use crate::projection::groups_or_one;
use crate::projection::keyed_rows;
use crate::projection::ordered;
use crate::projection::passing;
use crate::projection::plain_rows;
use crate::projection::projected;
use crate::projection::projected_rows;
use crate::projection::row_from;
use crate::projection::row_values;
use crate::projection::rows_differ;
use crate::projection::skipped;
use crate::projection::sort_key;
use crate::projection::sortable_rows;
use crate::projection::with_columns;
use crate::sorting::Keyed;
use crate::sorting::KeyedModel;
use crate::sorting::seen;
use crate::value::QueryModel;
use crate::value::Scoped;
use crate::value::ScopedNode;
use crate::value::compared;
use crate::value::of_lists;
use vstd::seq_lib::group_to_multiset_ensures;
use vstd::prelude::*;

verus! {

// -- Columns -----------------------------------------------------------------------

/// Whether every row holds so many values.
pub open spec fn as_wide(rows: Seq<Seq<QueryModel>>, width: nat) -> bool {
    forall|i: int| 0 <= i < rows.len() ==> (#[trigger] rows[i]).len() == width
}

/// Whether every projected row holds so many values.
spec fn projected_as_wide(rows: Seq<ProjectedRow>, width: nat) -> bool {
    forall|i: int| 0 <= i < rows.len() ==> (#[trigger] rows[i]).0.len() == width
}

proof fn row_is_as_wide(
    world: World,
    items: Seq<ProjectionItem>,
    at: int,
    scope: Scope,
    before: Seq<QueryModel>,
)
    requires
        0 <= at <= items.len(),
        before.len() == at,
    ensures
        row_from(world, items, at, scope, before) matches Ok(row) ==> row.len() == items.len(),
    decreases items.len() - at,
{
    if at < items.len() {
        if let Ok(value) = evaluated(world, items[at].expression, scope, None) {
            row_is_as_wide(world, items, at + 1, scope, before.push(value));
        }
    }
}

proof fn plain_rows_are_as_wide(
    world: World,
    items: Seq<ProjectionItem>,
    rows: Seq<Scope>,
    at: int,
    before: Seq<ProjectedRow>,
)
    requires
        projected_as_wide(before, items.len()),
    ensures
        plain_rows(world, items, rows, at, before) matches Ok(found) ==> projected_as_wide(
            found,
            items.len(),
        ),
    decreases rows.len() - at,
{
    if 0 <= at < rows.len() {
        row_is_as_wide(world, items, 0, rows[at], Seq::empty());
        if let Ok(row) = row_from(world, items, 0, rows[at], Seq::empty()) {
            let next = (
                row,
                with_columns(rows[at], names_of_columns(items), row, row.len() as int),
            );
            plain_rows_are_as_wide(world, items, rows, at + 1, before.push(next));
        }
    }
}

proof fn group_row_is_as_wide(
    world: World,
    items: Seq<ProjectionItem>,
    at: int,
    scope: Scope,
    values: Seq<QueryModel>,
    before: Seq<QueryModel>,
)
    requires
        0 <= at <= items.len(),
        before.len() == at,
    ensures
        group_row(world, items, at, scope, values, before) matches Ok(row) ==> row.len()
            == items.len(),
    decreases items.len() - at,
{
    if at < items.len() {
        let folded = Some((values, all_calls(items, at).len()));
        if let Ok(value) = evaluated(world, items[at].expression, scope, folded) {
            group_row_is_as_wide(world, items, at + 1, scope, values, before.push(value));
        }
    }
}

proof fn grouped_rows_are_as_wide(
    world: World,
    items: Seq<ProjectionItem>,
    groups: Seq<Seq<Scope>>,
    at: int,
    before: Seq<ProjectedRow>,
)
    requires
        projected_as_wide(before, items.len()),
    ensures
        grouped_rows(world, items, groups, at, before) matches Ok(found) ==> projected_as_wide(
            found,
            items.len(),
        ),
    decreases groups.len() - at,
{
    if 0 <= at < groups.len() {
        let group = groups[at];
        let scope = if group.len() > 0 {
            group[0]
        } else {
            Map::empty()
        };
        if let Ok(values) = folded_calls(
            world,
            all_calls(items, items.len() as int),
            0,
            group,
            Seq::empty(),
        ) {
            group_row_is_as_wide(world, items, 0, scope, values, Seq::empty());
        }
        if let Ok(row) = grouped_row(world, items, group) {
            grouped_rows_are_as_wide(world, items, groups, at + 1, before.push(row));
        }
    }
}

proof fn passing_rows_are_as_wide(
    world: World,
    predicate: Expression,
    rows: Seq<ProjectedRow>,
    at: int,
    before: Seq<ProjectedRow>,
    width: nat,
)
    requires
        projected_as_wide(rows, width),
        projected_as_wide(before, width),
    ensures
        passing(world, predicate, rows, at, before) matches Ok(found) ==> projected_as_wide(
            found,
            width,
        ),
    decreases rows.len() - at,
{
    if 0 <= at < rows.len() {
        if let Ok(value) = evaluated(world, predicate, rows[at].1, None) {
            let next = if value.truthy() {
                before.push(rows[at])
            } else {
                before
            };
            passing_rows_are_as_wide(world, predicate, rows, at + 1, next, width);
        }
    }
}

proof fn distinct_rows_are_as_wide(
    rows: Seq<ProjectedRow>,
    at: int,
    before: Seq<ProjectedRow>,
    width: nat,
)
    requires
        projected_as_wide(rows, width),
        projected_as_wide(before, width),
    ensures
        projected_as_wide(distinct_rows(rows, at, before), width),
    decreases rows.len() - at,
{
    if 0 <= at < rows.len() {
        if seen(row_values(before), before.len() as int, rows[at].0) {
            distinct_rows_are_as_wide(rows, at + 1, before, width);
        } else {
            distinct_rows_are_as_wide(rows, at + 1, before.push(rows[at]), width);
        }
    }
}

/// Whether the row behind every key holds so many values.
spec fn keyed_as_wide(rows: Seq<KeyedModel<ProjectedRow>>, width: nat) -> bool {
    forall|i: int| 0 <= i < rows.len() ==> (#[trigger] rows[i]).payload.0.len() == width
}

proof fn sortable_rows_are_as_wide(
    world: World,
    order: Seq<SortItem>,
    rows: Seq<ProjectedRow>,
    at: int,
    before: Seq<KeyedModel<ProjectedRow>>,
    width: nat,
)
    requires
        projected_as_wide(rows, width),
        keyed_as_wide(before, width),
    ensures
        sortable_rows(world, order, rows, at, before) matches Ok(found) ==> keyed_as_wide(
            found,
            width,
        ),
    decreases rows.len() - at,
{
    if 0 <= at < rows.len() {
        if let Ok(key) = sort_key(world, order, 0, rows[at].1, Seq::empty()) {
            let next = before.push(KeyedModel { key, payload: rows[at] });
            sortable_rows_are_as_wide(world, order, rows, at + 1, next, width);
        }
    }
}

proof fn sorted_rows_are_as_wide(rows: Seq<KeyedModel<ProjectedRow>>, width: nat)
    requires
        keyed_as_wide(rows, width),
    ensures
        keyed_as_wide(sorted::<Keyed<Projected>>(rows), width),
    decreases rows.len(),
{
    if rows.len() > 0 {
        sorted_rows_are_as_wide(rows.drop_last(), width);
        let rest = sorted::<Keyed<Projected>>(rows.drop_last());
        place_bounds::<Keyed<Projected>>(rest, rest.len() as int, rows.last());
    }
}

/// Every row of a projection holds one value for each column.
pub proof fn projections_fill_every_column(
    world: World,
    projection: Projection,
    rows: Seq<Scope>,
)
    ensures
        projected(world, projection, rows) matches Ok(found) ==> as_wide(
            found,
            projection.items@.len(),
        ),
{
    let items = projection.items@;
    let width = items.len();
    plain_rows_are_as_wide(world, items, rows, 0, Seq::empty());
    if let Ok(keyed) = keyed_rows(world, items, rows, 0, Seq::empty()) {
        grouped_rows_are_as_wide(world, items, groups_or_one(items, keyed), 0, Seq::empty());
    }
    if let Ok(first) = projected_rows(world, projection, rows) {
        assert(projected_as_wide(first, width));
        if let Some(predicate) = projection.predicate {
            passing_rows_are_as_wide(world, predicate, first, 0, Seq::empty(), width);
        }
        if let Ok(second) = filtered(world, projection, first) {
            assert(projected_as_wide(second, width));
            distinct_rows_are_as_wide(second, 0, Seq::empty(), width);
            let third = if projection.distinct {
                distinct_rows(second, 0, Seq::empty())
            } else {
                second
            };
            let order = projection.order_by@;
            sortable_rows_are_as_wide(world, order, third, 0, Seq::empty(), width);
            if let Ok(keyed) = sortable_rows(world, order, third, 0, Seq::empty()) {
                sorted_rows_are_as_wide(keyed, width);
            }
            if let Ok(last) = ordered(world, projection, third) {
                assert(projected_as_wide(last, width));
                assert(as_wide(row_values(last), width));
                if let Ok(rest) = skipped(world, projection, row_values(last)) {
                    assert(as_wide(rest, width));
                }
            }
        }
    }
}

/// Whether the rows of a table hold one value for each of its columns.
pub open spec fn even(table: Table) -> bool {
    as_wide(table.1, table.0.len())
}

proof fn part_is_even(
    setting: Setting,
    state: Changed,
    part: QueryPart,
    asked: int,
    fate: Fate,
)
    ensures
        part_run(setting, state, part, asked, fate) matches Ok((_, (table, _))) ==> {
            &&& even(table)
            &&& part.result matches Some(projection) ==> table.0 == names_of_columns(
                projection.items@,
            )
        },
{
    reveal(part_run);
    let none: Rows = (seq![Map::empty()], None);
    if let Ok((next, (left, _))) = clauses_run(
        setting,
        state,
        none,
        part.clauses@,
        0,
        asked,
        fate,
    ) {
        if let Some(projection) = part.result {
            projections_fill_every_column(setting.world(next.graph), projection, left.0);
        }
    }
}

/// Whether the parts of a query return equally many columns. A single part always does.
pub open spec fn parts_agree(parts: Seq<QueryPart>) -> bool {
    parts.len() <= 1 || forall|i: int|
        0 <= i < parts.len() ==> (#[trigger] parts[i]).result is Some
            && parts[i].result->0.items@.len() == parts[0].result->0.items@.len()
}

proof fn parts_are_even(
    setting: Setting,
    state: Changed,
    parts: Seq<QueryPart>,
    at: int,
    asked: int,
    before: Table,
    fate: Fate,
)
    requires
        parts_agree(parts),
        0 <= at <= parts.len(),
        even(before),
        at == 0 ==> before.1.len() == 0,
        at > 0 && parts.len() > 1 ==> before.0.len() == parts[0].result->0.items@.len(),
    ensures
        parts_run(setting, state, parts, at, asked, before, fate) matches Ok((_, table)) ==> {
            &&& even(table)
        },
    decreases parts.len() - at,
{
    if at < parts.len() && asks(fate, asked) is None {
        assert(parts.len() > 1 ==> parts[at].result is Some);
        part_is_even(setting, state, parts[at], asked + 1, fate);
        if let Ok((next, (table, count))) = part_run(
            setting,
            state,
            parts[at],
            asked + 1,
            fate,
        ) {
            let grown = (
                if at == 0 {
                    table.0
                } else {
                    before.0
                },
                before.1 + table.1,
            );
            assert(even(grown)) by {
                assert forall|i: int| 0 <= i < grown.1.len() implies (#[trigger] grown.1[i]).len()
                    == grown.0.len() by {
                    if i >= before.1.len() {
                        assert(grown.1[i] == table.1[i - before.1.len()]);
                    } else {
                        assert(grown.1[i] == before.1[i]);
                    }
                }
            }
            parts_are_even(setting, next, parts, at + 1, count, grown, fate);
        }
    }
}

proof fn unique_rows_are_as_wide(
    rows: Seq<Seq<QueryModel>>,
    at: int,
    before: Seq<Seq<QueryModel>>,
    width: nat,
)
    requires
        as_wide(rows, width),
        as_wide(before, width),
    ensures
        as_wide(unique_rows(rows, at, before), width),
    decreases rows.len() - at,
{
    if 0 <= at < rows.len() {
        if seen(before, before.len() as int, rows[at]) {
            unique_rows_are_as_wide(rows, at + 1, before, width);
        } else {
            unique_rows_are_as_wide(rows, at + 1, before.push(rows[at]), width);
        }
    }
}

/// Every row of an answer holds one value for each column, where the parts of the query
/// return equally many columns.
pub proof fn answers_fill_every_column(
    query: Query,
    graph: GraphModel,
    setting: Setting,
    fate: Fate,
)
    requires
        parts_agree(query.parts@),
    ensures
        query_run(query, graph, setting, fate).1 matches Ok(result) ==> as_wide(
            result.rows,
            result.columns.len(),
        ),
{
    reveal(query_run);
    let start = Changed { graph, summary: WriteSummary::nothing(), used: 0 };
    let none: Table = (Seq::empty(), Seq::empty());
    parts_are_even(setting, start, query.parts@, 0, 0, none, fate);
    if let Ok((_, (columns, rows))) = parts_run(setting, start, query.parts@, 0, 0, none, fate) {
        unique_rows_are_as_wide(rows, 0, Seq::empty(), columns.len());
    }
}

proof fn first_columns_stay(
    setting: Setting,
    state: Changed,
    parts: Seq<QueryPart>,
    at: int,
    asked: int,
    before: Table,
    fate: Fate,
)
    requires
        0 < at,
    ensures
        parts_run(setting, state, parts, at, asked, before, fate) matches Ok((_, table)) ==> table.0
            == before.0,
    decreases parts.len() - at,
{
    if at < parts.len() && asks(fate, asked) is None {
        if let Ok((next, (table, count))) = part_run(
            setting,
            state,
            parts[at],
            asked + 1,
            fate,
        ) {
            let grown = (before.0, before.1 + table.1);
            first_columns_stay(setting, next, parts, at + 1, count, grown, fate);
        }
    }
}

/// The columns that a projection is said to have before it runs are those of the answer of a
/// query whose first part returns it.
pub proof fn answers_have_the_projected_columns(
    query: Query,
    graph: GraphModel,
    setting: Setting,
    fate: Fate,
    projection: Projection,
)
    requires
        query.parts@.len() > 0,
        query.parts@[0].result == Some(projection),
    ensures
        query_run(query, graph, setting, fate).1 matches Ok(result) ==> result.columns
            == names_of_columns(projection.items@),
{
    reveal(query_run);
    let start = Changed { graph, summary: WriteSummary::nothing(), used: 0 };
    let none: Table = (Seq::empty(), Seq::empty());
    let first = query.parts@[0];
    part_is_even(setting, start, first, 1, fate);
    if asks(fate, 0) is None {
        if let Ok((next, (table, count))) = part_run(setting, start, first, 1, fate) {
            let grown = (table.0, none.1 + table.1);
            first_columns_stay(setting, next, query.parts@, 1, count, grown, fate);
        }
    }
}

// -- Every node --------------------------------------------------------------------

/// Whether a graph holds a node with an identifier.
pub open spec fn holds_node(graph: GraphModel, id: LocalNodeId) -> bool {
    exists|k: int| 0 <= k < graph.nodes.len() && (#[trigger] graph.nodes[k]).id == id
}

/// Whether no two nodes share an identifier.
pub open spec fn nodes_apart(nodes: Seq<NodeModel>) -> bool {
    forall|i: int, j: int|
        0 <= i < j < nodes.len() ==> (#[trigger] nodes[i]).id != (#[trigger] nodes[j]).id
}

/// How many nodes the first `count` sources hold.
pub open spec fn nodes_held(world: World, count: int) -> nat
    decreases count,
{
    if count <= 0 {
        0
    } else {
        nodes_held(world, count - 1) + world.graph(count - 1).nodes.len()
    }
}

/// Whether a node among nodes in order is the last one with its identifier.
spec fn ends_run(nodes: Seq<NodeModel>, k: int) -> bool {
    !(k + 1 < nodes.len() && nodes[k + 1].id == nodes[k].id)
}

proof fn ids_between_agree(nodes: Seq<NodeModel>, first: int, last: int)
    requires
        in_order::<Node>(nodes),
        0 <= first < last < nodes.len(),
        nodes[first].id == nodes[last].id,
    ensures
        nodes[first + 1].id == nodes[first].id,
{
    let a = nodes[first].id;
    let b = nodes[first + 1].id;
    a.length();
    b.length();
    assert(!Node::before(nodes[first + 1], nodes[first]));
    if first + 1 < last {
        assert(!Node::before(nodes[last], nodes[first + 1]));
    }
    bytes_precede_irreflexive(a@);
    bytes_precede_total(a@, b@);
    LocalNodeId::same_bytes(a, b);
}

proof fn candidates_in_source(nodes: Seq<NodeModel>, source: int, count: int)
    requires
        in_order::<Node>(nodes),
        0 <= count <= nodes.len(),
    ensures
        ({
            let found = candidates_in(nodes, source, count);
            &&& forall|i: int|
                0 <= i < found.len() ==> (#[trigger] found[i]).0.source == source as u32
            &&& forall|i: int|
                0 <= i < found.len() ==> exists|k: int|
                    0 <= k < count && #[trigger] ends_run(nodes, k) && nodes[k].id == (
                    #[trigger] found[i]).0.id
            &&& forall|k: int|
                0 <= k < count && #[trigger] ends_run(nodes, k) ==> exists|i: int|
                    0 <= i < found.len() && (#[trigger] found[i]).0 == (Scoped {
                        source: source as u32,
                        id: nodes[k].id,
                    })
            &&& forall|i: int, j: int|
                0 <= i < j < found.len() ==> (#[trigger] found[i]).0 != (#[trigger] found[j]).0
            &&& nodes_apart(nodes) ==> found.len() == count
        }),
    decreases count,
{
    if count > 0 {
        candidates_in_source(nodes, source, count - 1);
        let before = candidates_in(nodes, source, count - 1);
        let found = candidates_in(nodes, source, count);
        let node = nodes[count - 1];
        let handle = Scoped { source: source as u32, id: node.id };
        let skipped = count < nodes.len() && nodes[count].id == node.id;
        assert(ends_run(nodes, count - 1) == !skipped);
        assert(before.len() <= found.len());
        assert forall|i: int| 0 <= i < before.len() implies found[i] == #[trigger] before[i] by {}
        if !skipped {
            assert(found[before.len() as int].0 == handle);
            assert forall|i: int| 0 <= i < before.len() implies (#[trigger] before[i]).0
                != handle by {
                let k = choose|k: int|
                    0 <= k < count - 1 && #[trigger] ends_run(nodes, k) && nodes[k].id
                        == before[i].0.id;
                if before[i].0.id == node.id {
                    ids_between_agree(nodes, k, count - 1);
                }
            }
            assert forall|i: int, j: int| 0 <= i < j < found.len() implies (#[trigger] found[i]).0
                != (#[trigger] found[j]).0 by {
                assert(found[i] == before[i]);
                if j < before.len() {
                    assert(found[j] == before[j]);
                }
            }
        }
        assert forall|i: int| 0 <= i < found.len() implies exists|k: int|
            0 <= k < count && #[trigger] ends_run(nodes, k) && nodes[k].id == (
            #[trigger] found[i]).0.id by {
            if i < before.len() {
                assert(found[i] == before[i]);
                let k = choose|k: int|
                    0 <= k < count - 1 && #[trigger] ends_run(nodes, k) && nodes[k].id
                        == before[i].0.id;
                assert(ends_run(nodes, k));
            }
        }
        assert forall|k: int| 0 <= k < count && #[trigger] ends_run(nodes, k) implies exists|i: int|
            0 <= i < found.len() && (#[trigger] found[i]).0 == (Scoped {
                source: source as u32,
                id: nodes[k].id,
            }) by {
            if k < count - 1 {
                let i = choose|i: int|
                    0 <= i < before.len() && (#[trigger] before[i]).0 == (Scoped {
                        source: source as u32,
                        id: nodes[k].id,
                    });
                assert(found[i] == before[i]);
            }
        }
        if nodes_apart(nodes) && skipped {
            assert(nodes[count - 1].id != nodes[count].id);
        }
    }
}

/// Behind any node in order stands the last one with its identifier.
proof fn run_has_an_end(nodes: Seq<NodeModel>, k: int) -> (end: int)
    requires
        0 <= k < nodes.len(),
    ensures
        k <= end < nodes.len(),
        ends_run(nodes, end),
        nodes[end].id == nodes[k].id,
    decreases nodes.len() - k,
{
    if ends_run(nodes, k) {
        k
    } else {
        run_has_an_end(nodes, k + 1)
    }
}

proof fn sorting_keeps_identifiers(items: Seq<NodeModel>, id: LocalNodeId)
    ensures
        (exists|k: int| 0 <= k < items.len() && (#[trigger] items[k]).id == id) <==> (exists|
            k: int,
        |
            0 <= k < sorted::<Node>(items).len() && (#[trigger] sorted::<Node>(items)[k]).id == id),
{
    broadcast use group_to_multiset_ensures;

    let nodes = sorted::<Node>(items);
    sorted_keeps_items::<Node>(items);
    if exists|k: int| 0 <= k < items.len() && (#[trigger] items[k]).id == id {
        let k = choose|k: int| 0 <= k < items.len() && (#[trigger] items[k]).id == id;
        assert(items.contains(items[k]));
        assert(items.to_multiset().contains(items[k]));
        assert(nodes.contains(items[k]));
        let at = choose|at: int| 0 <= at < nodes.len() && nodes[at] == items[k];
        assert(nodes[at].id == id);
    }
    if exists|k: int| 0 <= k < nodes.len() && (#[trigger] nodes[k]).id == id {
        let k = choose|k: int| 0 <= k < nodes.len() && (#[trigger] nodes[k]).id == id;
        assert(nodes.contains(nodes[k]));
        assert(nodes.to_multiset().contains(nodes[k]));
        assert(items.contains(nodes[k]));
        let at = choose|at: int| 0 <= at < items.len() && items[at] == nodes[k];
        assert(items[at].id == id);
    }
}

proof fn sorting_keeps_nodes_apart(items: Seq<NodeModel>)
    requires
        nodes_apart(items),
    ensures
        nodes_apart(sorted::<Node>(items)),
    decreases items.len(),
{
    if items.len() > 0 {
        let front = items.drop_last();
        let last = items.last();
        assert(nodes_apart(front)) by {
            assert forall|i: int, j: int| 0 <= i < j < front.len() implies (#[trigger] front[i]).id
                != (#[trigger] front[j]).id by {
                assert(front[i] == items[i] && front[j] == items[j]);
            }
        }
        sorting_keeps_nodes_apart(front);
        let rest = sorted::<Node>(front);
        let at = place::<Node>(rest, rest.len() as int, last);
        place_bounds::<Node>(rest, rest.len() as int, last);
        sorting_keeps_identifiers(front, last.id);
        assert forall|k: int| 0 <= k < rest.len() implies (#[trigger] rest[k]).id != last.id by {
            if rest[k].id == last.id {
                let m = choose|m: int| 0 <= m < front.len() && (#[trigger] front[m]).id == last.id;
                assert(items[m].id != items[items.len() - 1].id);
            }
        }
        let all = rest.insert(at, last);
        assert forall|i: int, j: int| 0 <= i < j < all.len() implies (#[trigger] all[i]).id != (
        #[trigger] all[j]).id by {
            let left = if i < at {
                i
            } else {
                i - 1
            };
            let right = if j < at {
                j
            } else {
                j - 1
            };
            if i == at {
                assert(all[j] == rest[right]);
            } else if j == at {
                assert(all[i] == rest[left]);
            } else {
                assert(all[i] == rest[left] && all[j] == rest[right]);
            }
        }
    }
}

/// A match starts at every node of every source, each once: two handles differ, every node
/// has one, and every one is of a node.
pub proof fn every_node_is_a_candidate(world: World, count: int)
    requires
        world.linked.len() < u32::MAX,
        0 <= count <= world.linked.len() + 1,
    ensures
        ({
            let found = candidates_of(world, count);
            &&& forall|i: int, j: int|
                0 <= i < j < found.len() ==> (#[trigger] found[i]).0 != (#[trigger] found[j]).0
            &&& forall|source: int, id: LocalNodeId|
                0 <= source < count && #[trigger] holds_node(world.graph(source), id) ==> exists|
                    i: int,
                |
                    0 <= i < found.len() && (#[trigger] found[i]).0 == (Scoped {
                        source: source as u32,
                        id,
                    })
            &&& forall|i: int|
                0 <= i < found.len() ==> (#[trigger] found[i]).0.source < count && holds_node(
                    world.graph(found[i].0.source as int),
                    found[i].0.id,
                )
            &&& (forall|source: int|
                0 <= source < count ==> nodes_apart((#[trigger] world.graph(source)).nodes))
                ==> found.len() == nodes_held(world, count)
        }),
    decreases count,
{
    if count > 0 {
        every_node_is_a_candidate(world, count - 1);
        let own = count - 1;
        let graph = world.graph(own);
        let nodes = sorted::<Node>(graph.nodes);
        sorted_length::<Node>(graph.nodes);
        sorted_is_in_order::<Node>(graph.nodes);
        candidates_in_source(nodes, own, nodes.len() as int);
        let before = candidates_of(world, own);
        let added = candidates_in(nodes, own, nodes.len() as int);
        let found = candidates_of(world, count);
        assert(found == before + added);
        assert forall|i: int, j: int| 0 <= i < j < found.len() implies (#[trigger] found[i]).0 != (
        #[trigger] found[j]).0 by {
            if j < before.len() {
                assert(found[i] == before[i] && found[j] == before[j]);
            } else {
                assert(found[j] == added[j - before.len()]);
                if i < before.len() {
                    assert(found[i] == before[i]);
                } else {
                    assert(found[i] == added[i - before.len()]);
                }
            }
        }
        assert forall|source: int, id: LocalNodeId|
            0 <= source < count && #[trigger] holds_node(world.graph(source), id) implies exists|
            i: int,
        |
            0 <= i < found.len() && (#[trigger] found[i]).0 == (Scoped { source: source as u32, id }) by {
            let wanted = Scoped { source: source as u32, id };
            if source < own {
                let i = choose|i: int| 0 <= i < before.len() && (#[trigger] before[i]).0 == wanted;
                assert(found[i] == before[i]);
            } else {
                sorting_keeps_identifiers(graph.nodes, id);
                let k = choose|k: int| 0 <= k < nodes.len() && (#[trigger] nodes[k]).id == id;
                let end = run_has_an_end(nodes, k);
                let i = choose|i: int| 0 <= i < added.len() && (#[trigger] added[i]).0 == wanted;
                assert(found[before.len() + i] == added[i]);
            }
        }
        assert forall|i: int| 0 <= i < found.len() implies (#[trigger] found[i]).0.source < count
            && holds_node(world.graph(found[i].0.source as int), found[i].0.id) by {
            if i < before.len() {
                assert(found[i] == before[i]);
            } else {
                let handle = added[i - before.len()].0;
                assert(found[i] == added[i - before.len()]);
                let k = choose|k: int|
                    0 <= k < nodes.len() && #[trigger] ends_run(nodes, k) && nodes[k].id
                        == handle.id;
                assert(nodes[k].id == handle.id);
                sorting_keeps_identifiers(graph.nodes, handle.id);
            }
        }
        if forall|source: int|
            0 <= source < count ==> nodes_apart((#[trigger] world.graph(source)).nodes) {
            assert(nodes_apart(world.graph(own).nodes));
            sorting_keeps_nodes_apart(graph.nodes);
        }
    }
}

/// A row that holds a node.
pub open spec fn row_of_node(handle: ScopedNode) -> Seq<QueryModel> {
    seq![QueryModel::Node(handle)]
}

/// What is bound where a variable names a node and nothing else is bound.
spec fn bound_to(name: Seq<char>, handle: ScopedNode) -> Scope {
    Map::empty().insert(name, QueryModel::Node(handle))
}

/// Whether a pattern describes any node and binds it to a name.
pub open spec fn names_any_node(pattern: Pattern, name: Seq<char>) -> bool {
    &&& pattern.path_variable is None
    &&& pattern.steps@.len() == 0
    &&& pattern.start.variable matches Some(variable) && variable@ == name
    &&& pattern.start.labels@.len() == 0
    &&& pattern.start.properties@.len() == 0
}

/// Whether a projection returns what a name is bound to, with or without `DISTINCT`, and
/// nothing else.
pub open spec fn returns_only(projection: Projection, name: Seq<char>) -> bool {
    &&& projection.items@.len() == 1
    &&& projection.items@[0].expression matches Expression::Variable(variable) && variable@ == name
    &&& projection.predicate is None
    &&& projection.order_by@.len() == 0
    &&& projection.skip is None
    &&& projection.limit is None
}

/// Whether a query is `MATCH (n) RETURN n`, or the same with `DISTINCT`.
pub open spec fn asks_for_every_node(query: Query, name: Seq<char>) -> bool {
    &&& query.parts@.len() == 1
    &&& query.union_all@.len() == 0
    &&& query.parts@[0].clauses@.len() == 1
    &&& query.parts@[0].clauses@[0] matches Clause::Match { optional, patterns, predicate }
        && !optional && predicate is None && patterns@.len() == 1 && names_any_node(
        patterns@[0],
        name,
    )
    &&& query.parts@[0].result matches Some(projection) && returns_only(projection, name)
}

proof fn every_candidate_starts(
    world: World,
    pattern: NodePattern,
    name: Seq<char>,
    candidates: Seq<(ScopedNode, NodeModel)>,
    at: int,
    before: Seq<Partial>,
)
    requires
        pattern.variable matches Some(variable) && variable@ == name,
        pattern.labels@.len() == 0,
        pattern.properties@.len() == 0,
        0 <= at <= candidates.len(),
        before.len() == at,
        forall|i: int|
            0 <= i < at ==> (#[trigger] before[i]).scope == bound_to(name, candidates[i].0),
    ensures
        starts_from(world, pattern, Map::empty(), candidates, at, before) matches Ok(found)
            && found.len() == candidates.len() && forall|i: int|
            0 <= i < found.len() ==> (#[trigger] found[i]).scope == bound_to(name, candidates[i].0),
    decreases candidates.len() - at,
{
    if at < candidates.len() {
        let (handle, node) = candidates[at];
        let next = Partial {
            scope: bound_to(name, handle),
            current: handle,
            nodes: seq![handle],
            edges: Seq::empty(),
        };
        every_candidate_starts(world, pattern, name, candidates, at + 1, before.push(next));
    }
}

proof fn every_candidate_matches(world: World, pattern: Pattern, name: Seq<char>)
    requires
        names_any_node(pattern, name),
    ensures
        ({
            let candidates = candidates_of(world, world.linked.len() as int + 1);
            matched(world, pattern, Map::empty()) == Ok::<_, QueryErrorModel>(
                Seq::new(candidates.len(), |i: int| bound_to(name, candidates[i].0)),
            )
        }),
{
    reveal(matched);
    let candidates = candidates_of(world, world.linked.len() as int + 1);
    let none = Seq::<Partial>::empty();
    every_candidate_starts(world, pattern.start, name, candidates, 0, none);
    let started = starts_from(world, pattern.start, Map::empty(), candidates, 0, none)->Ok_0;
    assert(matched(world, pattern, Map::empty())->Ok_0 =~= Seq::new(
        candidates.len(),
        |i: int| bound_to(name, candidates[i].0),
    ));
}

/// What the one match of the query makes of the empty row it starts from.
proof fn match_finds_every_candidate(
    world: World,
    patterns: Seq<Pattern>,
    name: Seq<char>,
    asked: int,
    fate: Fate,
)
    requires
        patterns.len() == 1,
        names_any_node(patterns[0], name),
        fate.stop is None,
    ensures
        ({
            let candidates = candidates_of(world, world.linked.len() as int + 1);
            rows_matched(
                world,
                false,
                patterns,
                None,
                seq![Map::empty()],
                0,
                asked,
                fate,
                Seq::empty(),
            ) == Ok::<_, QueryErrorModel>(
                Seq::new(candidates.len(), |i: int| bound_to(name, candidates[i].0)),
            )
        }),
{
    let candidates = candidates_of(world, world.linked.len() as int + 1);
    let all = Seq::new(candidates.len(), |i: int| bound_to(name, candidates[i].0));
    let none = Seq::<Scope>::empty();
    let row: Scope = Map::empty();
    every_candidate_matches(world, patterns[0], name);
    assert(none + all =~= all);
    assert(all_matched(world, patterns[0], seq![row], 0, none) == Ok::<_, QueryErrorModel>(all)) by {
        reveal_with_fuel(all_matched, 2);
    }
    assert(patterns_matched(world, patterns, 0, seq![row]) == Ok::<_, QueryErrorModel>(all)) by {
        reveal_with_fuel(patterns_matched, 2);
    }
    reveal_with_fuel(rows_matched, 2);
}

proof fn every_row_is_projected(
    world: World,
    items: Seq<ProjectionItem>,
    name: Seq<char>,
    handles: Seq<ScopedNode>,
    rows: Seq<Scope>,
    at: int,
    before: Seq<ProjectedRow>,
)
    requires
        items.len() == 1,
        items[0].expression matches Expression::Variable(variable) && variable@ == name,
        rows.len() == handles.len(),
        forall|i: int| 0 <= i < rows.len() ==> #[trigger] rows[i] == bound_to(name, handles[i]),
        0 <= at <= rows.len(),
        before.len() == at,
        forall|i: int| 0 <= i < at ==> (#[trigger] before[i]).0 == row_of_node(handles[i]),
    ensures
        plain_rows(world, items, rows, at, before) matches Ok(found) && found.len()
            == handles.len() && forall|i: int|
            0 <= i < found.len() ==> (#[trigger] found[i]).0 == row_of_node(handles[i]),
    decreases rows.len() - at,
{
    if at < rows.len() {
        reveal_with_fuel(row_from, 2);
        let row = row_of_node(handles[at]);
        assert(rows[at] == bound_to(name, handles[at]));
        assert(Seq::<QueryModel>::empty().push(QueryModel::Node(handles[at])) =~= row);
        assert(row_from(world, items, 0, rows[at], Seq::empty()) == Ok::<_, QueryErrorModel>(row));
        let next = (row, with_columns(rows[at], names_of_columns(items), row, row.len() as int));
        every_row_is_projected(world, items, name, handles, rows, at + 1, before.push(next));
    }
}

proof fn different_nodes_compare_as_different(left: ScopedNode, right: ScopedNode)
    requires
        left != right,
    ensures
        of_lists(row_of_node(left), row_of_node(right), 0) != Relation::Same,
{
    reveal_with_fuel(of_lists, 2);
    reveal_with_fuel(compared, 2);
    left.id.length();
    right.id.length();
    if left.source == right.source {
        bytes_precede_total(left.id@, right.id@);
        if left.id@ == right.id@ {
            LocalNodeId::same_bytes(left.id, right.id);
        }
    }
}

proof fn not_seen(rows: Seq<Seq<QueryModel>>, count: int, row: Seq<QueryModel>)
    requires
        count <= rows.len(),
        forall|i: int| 0 <= i < count ==> of_lists(#[trigger] rows[i], row, 0) != Relation::Same,
    ensures
        !seen(rows, count, row),
    decreases count,
{
    if count > 0 {
        not_seen(rows, count - 1, row);
    }
}

proof fn different_rows_stay(rows: Seq<ProjectedRow>, at: int)
    requires
        rows_differ(rows),
        0 <= at <= rows.len(),
    ensures
        distinct_rows(rows, at, rows.take(at)) == rows,
    decreases rows.len() - at,
{
    if at < rows.len() {
        let before = rows.take(at);
        assert forall|i: int| 0 <= i < at implies of_lists(
            #[trigger] row_values(before)[i],
            rows[at].0,
            0,
        ) != Relation::Same by {
            assert(row_values(before)[i] == rows[i].0);
        }
        not_seen(row_values(before), at, rows[at].0);
        assert(before.push(rows[at]) =~= rows.take(at + 1));
        different_rows_stay(rows, at + 1);
    } else {
        assert(rows.take(at) =~= rows);
    }
}

proof fn projection_returns_every_node(
    world: World,
    projection: Projection,
    name: Seq<char>,
    handles: Seq<ScopedNode>,
    rows: Seq<Scope>,
)
    requires
        returns_only(projection, name),
        rows.len() == handles.len(),
        forall|i: int| 0 <= i < rows.len() ==> #[trigger] rows[i] == bound_to(name, handles[i]),
        forall|i: int, j: int|
            0 <= i < j < handles.len() ==> #[trigger] handles[i] != #[trigger] handles[j],
    ensures
        projected(world, projection, rows) == Ok::<_, QueryErrorModel>(
            Seq::new(handles.len(), |i: int| row_of_node(handles[i])),
        ),
{
    let items = projection.items@;
    let none = Seq::<ProjectedRow>::empty();
    assert(all_calls(items, 1) =~= Seq::empty()) by {
        reveal_with_fuel(all_calls, 2);
    }
    every_row_is_projected(world, items, name, handles, rows, 0, none);
    let found = plain_rows(world, items, rows, 0, none)->Ok_0;
    assert(rows_differ(found)) by {
        assert forall|i: int, j: int| 0 <= i < j < found.len() implies of_lists(
            (#[trigger] found[i]).0,
            (#[trigger] found[j]).0,
            0,
        ) != Relation::Same by {
            assert(handles[i] != handles[j]);
            different_nodes_compare_as_different(handles[i], handles[j]);
        }
    }
    assert(found.take(0) =~= none);
    different_rows_stay(found, 0);
    assert(row_values(found) =~= Seq::new(handles.len(), |i: int| row_of_node(handles[i])));
}

/// Whether a row holds a node of a source and nothing else.
pub open spec fn is_row_of_a_node(world: World, row: Seq<QueryModel>) -> bool {
    exists|handle: ScopedNode|
        row == #[trigger] row_of_node(handle) && handle.source <= world.linked.len() && holds_node(
            world.graph(handle.source as int),
            handle.id,
        )
}

/// Whether rows hold every node of every source of a world: two rows differ, every node has
/// a row, and every row is of a node.
pub open spec fn every_node_has_a_row(world: World, rows: Seq<Seq<QueryModel>>) -> bool {
    &&& all_differ(rows)
    &&& forall|source: int, id: LocalNodeId|
        0 <= source <= world.linked.len() && #[trigger] holds_node(world.graph(source), id)
            ==> rows.contains(row_of_node(Scoped { source: source as u32, id }))
    &&& forall|i: int| 0 <= i < rows.len() ==> is_row_of_a_node(world, #[trigger] rows[i])
}

/// A federated query for every node answers with one row for each node of every source, and
/// no two rows are the same, whether or not it asks for distinct rows. Where no source holds
/// two nodes with one identifier, there are as many rows as nodes.
#[verifier::rlimit(40)]
pub proof fn every_node_of_every_source_is_returned(
    query: Query,
    graph: GraphModel,
    setting: Setting,
    fate: Fate,
    name: Seq<char>,
)
    requires
        asks_for_every_node(query, name),
        setting.linked.len() < u32::MAX,
        fate.stop is None,
    ensures
        query_run(query, graph, setting, fate).1 matches Ok(result) && every_node_has_a_row(
            setting.world(graph),
            result.rows,
        ) && ((forall|source: int|
            0 <= source <= setting.linked.len() ==> nodes_apart(
                (#[trigger] setting.world(graph).graph(source)).nodes,
            )) ==> result.rows.len() == nodes_held(
            setting.world(graph),
            setting.linked.len() as int + 1,
        )),
{
    let world = setting.world(graph);
    let count = world.linked.len() as int + 1;
    let candidates = candidates_of(world, count);
    let handles = Seq::new(candidates.len(), |i: int| candidates[i].0);
    let scopes = Seq::new(candidates.len(), |i: int| bound_to(name, candidates[i].0));
    let rows = Seq::new(handles.len(), |i: int| row_of_node(handles[i]));
    let part = query.parts@[0];
    let projection = part.result->0;
    let start = Changed { graph, summary: WriteSummary::nothing(), used: 0 };
    every_node_is_a_candidate(world, count);
    assert forall|i: int, j: int| 0 <= i < j < handles.len() implies #[trigger] handles[i]
        != #[trigger] handles[j] by {
        assert(candidates[i].0 != candidates[j].0);
    }
    projection_returns_every_node(world, projection, name, handles, scopes);
    let first: Rows = (seq![Map::empty()], None);
    assert(clause_run(setting, start, first.0, part.clauses@[0], 2, fate) == Ok::<
        (Changed, Rows),
        (GraphModel, QueryErrorModel),
    >((start, (scopes, None)))) by {
        reveal(clause_run);
        match part.clauses@[0] {
            Clause::Match { patterns, .. } => {
                match_finds_every_candidate(world, patterns@, name, 2, fate);
            },
            _ => {},
        }
    }
    assert(clauses_run(setting, start, first, part.clauses@, 0, 1, fate) == Ok::<
        (Changed, (Rows, int)),
        (GraphModel, QueryErrorModel),
    >((start, ((scopes, None), 3)))) by {
        reveal_with_fuel(clauses_run, 2);
        assert(first.0.len() == 1);
    }
    let table: Table = (names_of_columns(projection.items@), rows);
    assert(part_run(setting, start, part, 1, fate) == Ok::<
        (Changed, (Table, int)),
        (GraphModel, QueryErrorModel),
    >((start, (table, 3)))) by {
        reveal(part_run);
    }
    let none: Table = (Seq::empty(), Seq::empty());
    assert(none.1 + rows =~= rows);
    assert(parts_run(setting, start, query.parts@, 0, 0, none, fate) == Ok::<
        (Changed, Table),
        (GraphModel, QueryErrorModel),
    >((start, table))) by {
        reveal_with_fuel(parts_run, 2);
    }
    reveal(query_run);
    assert(!removes_duplicates(query.union_all@, 0));
    assert(query_run(query, graph, setting, fate).1->Ok_0.rows == rows);
    rows_hold_every_node(world, handles, rows);
}

proof fn rows_hold_every_node(
    world: World,
    handles: Seq<ScopedNode>,
    rows: Seq<Seq<QueryModel>>,
)
    requires
        world.linked.len() < u32::MAX,
        ({
            let candidates = candidates_of(world, world.linked.len() as int + 1);
            handles == Seq::new(candidates.len(), |i: int| candidates[i].0)
        }),
        rows == Seq::new(handles.len(), |i: int| row_of_node(handles[i])),
    ensures
        every_node_has_a_row(world, rows),
{
    let count = world.linked.len() as int + 1;
    let candidates = candidates_of(world, count);
    every_node_is_a_candidate(world, count);
    assert forall|i: int, j: int| 0 <= i < j < rows.len() implies of_lists(
        #[trigger] rows[i],
        #[trigger] rows[j],
        0,
    ) != Relation::Same by {
        assert(candidates[i].0 != candidates[j].0);
        different_nodes_compare_as_different(handles[i], handles[j]);
    }
    assert(all_differ(rows));
    assert forall|source: int, id: LocalNodeId|
        0 <= source <= world.linked.len() && #[trigger] holds_node(
            world.graph(source),
            id,
        ) implies rows.contains(row_of_node(Scoped { source: source as u32, id })) by {
        let handle = Scoped { source: source as u32, id };
        let i = choose|i: int| 0 <= i < candidates.len() && (#[trigger] candidates[i]).0 == handle;
        assert(rows[i] == row_of_node(handle));
    }
    assert forall|i: int| 0 <= i < rows.len() implies is_row_of_a_node(world, #[trigger] rows[i]) by {
        assert(candidates[i].0.source < count);
        assert(rows[i] == row_of_node(handles[i]));
    }
}

// -- Creating ----------------------------------------------------------------------

/// Whether a query does nothing but create one node without a variable, with this pattern.
pub open spec fn creates_one_node(
    query: Query,
    patterns: Vec<Pattern>,
    range: SourceRange,
) -> bool {
    &&& query.parts@.len() == 1
    &&& query.parts@[0].result is None
    &&& query.parts@[0].clauses@.len() == 1
    &&& query.parts@[0].clauses@[0] == (Clause::Create { patterns, range })
    &&& patterns@.len() == 1
    &&& patterns@[0].steps@.len() == 0
    &&& patterns@[0].start.variable is None
}

proof fn creating_clause_is_run(
    setting: Setting,
    state: Changed,
    row: Scope,
    patterns: Vec<Pattern>,
    range: SourceRange,
    values: Seq<Seq<PatternModel>>,
    asked: int,
    fate: Fate,
)
    requires
        patterns@.len() == 1,
        patterns@[0].steps@.len() == 0,
        patterns@[0].start.variable is None,
        patterns@[0].start.labels@.len() > 0,
        labels_made(patterns@[0].start.labels@, 0, range, Seq::empty()) is Ok,
        rows_evaluated(setting.world(state.graph), patterns@, seq![row], 0, Seq::empty()) == Ok::<
            _,
            QueryErrorModel,
        >(values),
        stored_map(values[0][0].start, 0, range, Seq::empty()) is Ok,
        unused_by_nodes(state.graph.nodes, fate.minted, state.used, u64::MAX as nat) is Some,
    ensures
        clause_run(setting, state, seq![row], Clause::Create { patterns, range }, asked, fate)
            matches Ok((_, (_, names))) && names is None,
{
    reveal(clause_run);
    reveal(pattern_created);
    let first = with_scope(state, row);
    assert(node_created(first, patterns@[0].start, values[0][0].start, range, fate.minted).1 is Ok);
    assert(pattern_created(first, patterns@[0], values[0][0], range, fate.minted).1 is Ok);
    reveal_with_fuel(patterns_created, 2);
    assert(patterns_created(first, patterns@, values[0], 0, range, fate.minted).1 is Ok);
    reveal_with_fuel(rows_created, 2);
    assert(seq![row][0] == row);
    assert(rows_created(
        state,
        patterns@,
        seq![row],
        values,
        0,
        range,
        fate.minted,
        Seq::empty(),
    ) is Ok);
}

/// A query that creates one node is answered, unless it is told to stop: where the labels are
/// names, the values can be read and stored, and one of the identifiers that are minted for it
/// is free.
pub proof fn creating_query_is_answered(
    query: Query,
    graph: GraphModel,
    setting: Setting,
    fate: Fate,
    patterns: Vec<Pattern>,
    range: SourceRange,
    values: Seq<Seq<PatternModel>>,
)
    requires
        creates_one_node(query, patterns, range),
        patterns@[0].start.labels@.len() > 0,
        labels_made(patterns@[0].start.labels@, 0, range, Seq::empty()) is Ok,
        rows_evaluated(setting.world(graph), patterns@, seq![Map::empty()], 0, Seq::empty())
            == Ok::<_, QueryErrorModel>(values),
        stored_map(values[0][0].start, 0, range, Seq::empty()) is Ok,
        unused_by_nodes(graph.nodes, fate.minted, 0, u64::MAX as nat) is Some,
        fate.stop is None,
    ensures
        query_run(query, graph, setting, fate).1 is Ok,
{
    let state = Changed { graph, summary: WriteSummary::nothing(), used: 0 };
    let clauses = query.parts@[0].clauses@;
    let start: Rows = (seq![Map::empty()], None);
    creating_clause_is_run(setting, state, Map::empty(), patterns, range, values, 2, fate);
    let (next, found) = clause_run(setting, state, start.0, clauses[0], 2, fate)->Ok_0;
    let asked = 2 + questions(clauses[0], 1);
    assert(clauses_run(setting, next, found, clauses, 1, asked, fate) == Ok::<
        _,
        (GraphModel, QueryErrorModel),
    >((next, (found, asked))));
    assert(clauses_run(setting, state, start, clauses, 0, 1, fate) is Ok);
    reveal(part_run);
    assert(part_run(setting, state, query.parts@[0], 1, fate) is Ok);
    reveal_with_fuel(parts_run, 2);
    reveal(query_run);
}

} // verus!
