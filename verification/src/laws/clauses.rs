//! What the clauses of a query evaluate, call and pass on.

use crate::clauses::assignments_evaluated;
use crate::clauses::columns_kept;
use crate::clauses::columns_yielded;
use crate::clauses::item_evaluated;
use crate::clauses::items_evaluated;
use crate::clauses::map_evaluated;
use crate::clauses::pattern_evaluated;
use crate::clauses::patterns_evaluated;
use crate::clauses::row_per_result;
use crate::clauses::row_with;
use crate::clauses::rows_called;
use crate::clauses::rows_evaluated;
use crate::clauses::scope_of_row;
use crate::clauses::steps_evaluated;
use crate::clauses::text_at;
use crate::cypher::Expression;
use crate::cypher::NodePattern;
use crate::cypher::Pattern;
use crate::cypher::ProcedureCall;
use crate::cypher::RelationshipPattern;
use crate::cypher::SetItem;
use crate::cypher::YieldItem;
use crate::evaluate::evaluated_from;
use crate::evaluate::holder;
use crate::evaluate::World;
use crate::evidence::SourceRange;
use crate::execute::part_result;
use crate::laws::expressions::yields;
use crate::laws::rows::joined_contains;
use crate::matching::Scope;
use crate::mutate::PatternModel;
use crate::procedure::procedure_rows;
use crate::procedure::ProcedureModel;
use crate::value::QueryModel;
use vstd::prelude::*;

verus! {

// -- What a write is given ---------------------------------------------------------

/// Whether values are those of an inline map in a row: under the same keys, in the same order,
/// what each expression yields.
pub open spec fn are_of_map(
    world: World,
    map: Seq<(String, Expression)>,
    row: Scope,
    values: Seq<(Seq<char>, QueryModel)>,
) -> bool {
    values.len() == map.len() && forall|i: int|
        0 <= i < map.len() ==> (#[trigger] values[i]).0 == map[i].0@ && yields(
            world,
            map[i].1,
            row,
            values[i].1,
        )
}

proof fn a_map_holds_what_it_yields(
    world: World,
    map: Seq<(String, Expression)>,
    at: int,
    row: Scope,
    before: Seq<(Seq<char>, QueryModel)>,
)
    requires
        0 <= at <= map.len(),
        are_of_map(world, map.take(at), row, before),
    ensures
        map_evaluated(world, map, at, row, before) matches Ok(values) ==> are_of_map(
            world,
            map,
            row,
            values,
        ),
    decreases map.len() - at,
{
    if at < map.len() {
        if let Ok(value) = crate::evaluate::evaluated(world, map[at].1, row, None) {
            let more = before.push((map[at].0@, value));
            let front = map.take(at + 1);
            assert forall|i: int| 0 <= i < front.len() implies (#[trigger] more[i]).0 == front[i].0@
                && yields(world, front[i].1, row, more[i].1) by {
                if i < at {
                    assert(more[i] == before[i]);
                    assert(map.take(at)[i] == map[i]);
                }
            }
            a_map_holds_what_it_yields(world, map, at + 1, row, more);
        }
    } else {
        assert(map.take(at) =~= map);
    }
}

proof fn steps_hold_what_they_yield(
    world: World,
    steps: Seq<(RelationshipPattern, NodePattern)>,
    at: int,
    row: Scope,
    before: Seq<(Seq<(Seq<char>, QueryModel)>, Seq<(Seq<char>, QueryModel)>)>,
)
    requires
        0 <= at <= steps.len(),
        before.len() == at,
        forall|i: int|
            0 <= i < at ==> are_of_map(world, steps[i].0.properties@, row, (#[trigger] before[i]).0)
                && are_of_map(world, steps[i].1.properties@, row, before[i].1),
    ensures
        steps_evaluated(world, steps, at, row, before) matches Ok(values) ==> values.len()
            == steps.len() && forall|i: int|
            0 <= i < steps.len() ==> are_of_map(
                world,
                steps[i].0.properties@,
                row,
                (#[trigger] values[i]).0,
            ) && are_of_map(world, steps[i].1.properties@, row, values[i].1),
    decreases steps.len() - at,
{
    if at < steps.len() {
        let first = steps[at].0.properties@;
        let second = steps[at].1.properties@;
        assert(first.take(0) =~= Seq::empty());
        assert(second.take(0) =~= Seq::empty());
        a_map_holds_what_it_yields(world, first, 0, row, Seq::empty());
        a_map_holds_what_it_yields(world, second, 0, row, Seq::empty());
        if let Ok(relationship) = map_evaluated(world, first, 0, row, Seq::empty()) {
            if let Ok(node) = map_evaluated(world, second, 0, row, Seq::empty()) {
                steps_hold_what_they_yield(
                    world,
                    steps,
                    at + 1,
                    row,
                    before.push((relationship, node)),
                );
            }
        }
    }
}

/// Whether values are those of the inline maps of a pattern in a row.
pub open spec fn are_of_pattern(
    world: World,
    pattern: Pattern,
    row: Scope,
    values: PatternModel,
) -> bool {
    &&& are_of_map(world, pattern.start.properties@, row, values.start)
    &&& values.steps.len() == pattern.steps@.len()
    &&& forall|i: int|
        0 <= i < pattern.steps@.len() ==> are_of_map(
            world,
            pattern.steps@[i].0.properties@,
            row,
            (#[trigger] values.steps[i]).0,
        ) && are_of_map(world, pattern.steps@[i].1.properties@, row, values.steps[i].1)
}

/// What is created of a pattern gets the values that its inline maps yield in the row, those of
/// a node for that node and those of a relationship for that relationship.
pub proof fn a_pattern_is_given_what_it_yields(world: World, pattern: Pattern, row: Scope)
    ensures
        pattern_evaluated(world, pattern, row) matches Ok(values) ==> are_of_pattern(
            world,
            pattern,
            row,
            values,
        ),
{
    let start = pattern.start.properties@;
    assert(start.take(0) =~= Seq::empty());
    a_map_holds_what_it_yields(world, start, 0, row, Seq::empty());
    steps_hold_what_they_yield(world, pattern.steps@, 0, row, Seq::empty());
}

proof fn patterns_are_given_their_values(
    world: World,
    patterns: Seq<Pattern>,
    at: int,
    row: Scope,
    before: Seq<PatternModel>,
)
    requires
        0 <= at <= patterns.len(),
        before.len() == at,
        forall|i: int| 0 <= i < at ==> are_of_pattern(world, patterns[i], row, #[trigger] before[i]),
    ensures
        patterns_evaluated(world, patterns, at, row, before) matches Ok(values) ==> values.len()
            == patterns.len() && forall|i: int|
            0 <= i < patterns.len() ==> are_of_pattern(world, patterns[i], row, #[trigger] values[i]),
    decreases patterns.len() - at,
{
    if at < patterns.len() {
        a_pattern_is_given_what_it_yields(world, patterns[at], row);
        if let Ok(values) = pattern_evaluated(world, patterns[at], row) {
            patterns_are_given_their_values(world, patterns, at + 1, row, before.push(values));
        }
    }
}

/// Every row of a write is given the values that it yields itself.
pub proof fn every_row_is_given_its_values(
    world: World,
    patterns: Seq<Pattern>,
    rows: Seq<Scope>,
    at: int,
    before: Seq<Seq<PatternModel>>,
)
    requires
        0 <= at <= rows.len(),
        before.len() == at,
    ensures
        rows_evaluated(world, patterns, rows, at, before) matches Ok(values) ==> values.len()
            == rows.len() && (forall|k: int| 0 <= k < at ==> values[k] == #[trigger] before[k])
            && forall|k: int, i: int|
            at <= k < rows.len() && 0 <= i < patterns.len() ==> are_of_pattern(
                world,
                patterns[i],
                rows[k],
                #[trigger] values[k][i],
            ),
    decreases rows.len() - at,
{
    if at < rows.len() {
        patterns_are_given_their_values(world, patterns, 0, rows[at], Seq::empty());
        if let Ok(one) = patterns_evaluated(world, patterns, 0, rows[at], Seq::empty()) {
            let more = before.push(one);
            every_row_is_given_its_values(world, patterns, rows, at + 1, more);
            if let Ok(values) = rows_evaluated(world, patterns, rows, at, before) {
                assert(values[at] == more[at]);
                assert forall|k: int| 0 <= k < at implies values[k] == #[trigger] before[k] by {
                    assert(more[k] == before[k]);
                }
            }
        }
    }
}

/// Whether a value is what a `SET` item assigns in a row.
pub open spec fn is_assigned(
    world: World,
    item: SetItem,
    row: Scope,
    value: Option<QueryModel>,
) -> bool {
    match item {
        SetItem::Property { value: expression, .. } => value matches Some(found) && yields(
            world,
            expression,
            row,
            found,
        ),
        SetItem::Label { .. } => value is None,
    }
}

proof fn items_assign_what_they_yield(
    world: World,
    items: Seq<SetItem>,
    at: int,
    row: Scope,
    before: Seq<Option<QueryModel>>,
)
    requires
        0 <= at <= items.len(),
        before.len() == at,
        forall|i: int| 0 <= i < at ==> is_assigned(world, items[i], row, #[trigger] before[i]),
    ensures
        items_evaluated(world, items, at, row, before) matches Ok(values) ==> values.len()
            == items.len() && forall|i: int|
            0 <= i < items.len() ==> is_assigned(world, items[i], row, #[trigger] values[i]),
    decreases items.len() - at,
{
    if at < items.len() {
        if let Ok(value) = item_evaluated(world, items[at], row) {
            items_assign_what_they_yield(world, items, at + 1, row, before.push(value));
        }
    }
}

/// A `SET` assigns in every row what its expressions yield there.
pub proof fn every_row_is_assigned_what_it_yields(
    world: World,
    items: Seq<SetItem>,
    rows: Seq<Scope>,
    at: int,
    before: Seq<Seq<Option<QueryModel>>>,
)
    requires
        0 <= at <= rows.len(),
        before.len() == at,
    ensures
        assignments_evaluated(world, items, rows, at, before) matches Ok(values) ==> values.len()
            == rows.len() && (forall|k: int| 0 <= k < at ==> values[k] == #[trigger] before[k])
            && forall|k: int, i: int|
            at <= k < rows.len() && 0 <= i < items.len() ==> is_assigned(
                world,
                items[i],
                rows[k],
                #[trigger] values[k][i],
            ),
    decreases rows.len() - at,
{
    if at < rows.len() {
        items_assign_what_they_yield(world, items, 0, rows[at], Seq::empty());
        if let Ok(one) = items_evaluated(world, items, 0, rows[at], Seq::empty()) {
            let more = before.push(one);
            every_row_is_assigned_what_it_yields(world, items, rows, at + 1, more);
            if let Ok(values) = assignments_evaluated(world, items, rows, at, before) {
                assert(values[at] == more[at]);
                assert forall|k: int| 0 <= k < at implies values[k] == #[trigger] before[k] by {
                    assert(more[k] == before[k]);
                }
            }
        }
    }
}

// -- Calls -------------------------------------------------------------------------

proof fn a_kept_column_is_bound(
    row: Scope,
    kept: Seq<(int, Seq<char>)>,
    produced: Seq<QueryModel>,
    count: int,
    k: int,
)
    requires
        0 <= k < count <= kept.len(),
        forall|j: int| k < j < count ==> (#[trigger] kept[j]).1 != kept[k].1,
        0 <= kept[k].0 < produced.len(),
    ensures
        row_with(row, kept, produced, count).contains_key(kept[k].1),
        row_with(row, kept, produced, count)[kept[k].1] == produced[kept[k].0],
    decreases count,
{
    if k < count - 1 {
        a_kept_column_is_bound(row, kept, produced, count - 1, k);
        assert(kept[count - 1].1 != kept[k].1);
    }
}

proof fn other_names_stay(
    row: Scope,
    kept: Seq<(int, Seq<char>)>,
    produced: Seq<QueryModel>,
    count: int,
    name: Seq<char>,
)
    requires
        0 <= count <= kept.len(),
        forall|j: int| 0 <= j < count ==> (#[trigger] kept[j]).1 != name,
    ensures
        row_with(row, kept, produced, count).contains_key(name) == row.contains_key(name),
        row.contains_key(name) ==> row_with(row, kept, produced, count)[name] == row[name],
    decreases count,
{
    if count > 0 {
        other_names_stay(row, kept, produced, count - 1, name);
        assert(kept[count - 1].1 != name);
    }
}

/// A call gives one row for each that the procedure produces for a row. Each kept column is
/// bound to what was produced in it, and every other name to what it was.
pub proof fn a_call_gives_a_row_per_result(
    row: Scope,
    kept: Seq<(int, Seq<char>)>,
    produced: Seq<Seq<QueryModel>>,
    r: int,
    k: int,
    name: Seq<char>,
)
    requires
        0 <= r < produced.len(),
        0 <= k < kept.len(),
        forall|j: int| k < j < kept.len() ==> (#[trigger] kept[j]).1 != kept[k].1,
        0 <= kept[k].0 < produced[r].len(),
        forall|j: int| 0 <= j < kept.len() ==> (#[trigger] kept[j]).1 != name,
    ensures
        row_per_result(row, kept, produced).len() == produced.len(),
        row_per_result(row, kept, produced)[r].contains_key(kept[k].1),
        row_per_result(row, kept, produced)[r][kept[k].1] == produced[r][kept[k].0],
        row_per_result(row, kept, produced)[r].contains_key(name) == row.contains_key(name),
        row.contains_key(name) ==> row_per_result(row, kept, produced)[r][name] == row[name],
{
    a_kept_column_is_bound(row, kept, produced[r], kept.len() as int, k);
    other_names_stay(row, kept, produced[r], kept.len() as int, name);
}

proof fn a_column_is_found(texts: Seq<Seq<char>>, text: Seq<char>, at: int)
    requires
        0 <= at <= texts.len(),
    ensures
        match text_at(texts, text, at) {
            Some(k) => at <= k < texts.len() && texts[k] == text,
            None => forall|j: int| at <= j < texts.len() ==> #[trigger] texts[j] != text,
        },
    decreases texts.len() - at,
{
    if at < texts.len() && texts[at] != text {
        a_column_is_found(texts, text, at + 1);
    }
}

/// Whether a kept column is the one that an item names, under its alias where it has one.
pub open spec fn is_kept(
    procedure: ProcedureModel,
    item: YieldItem,
    one: (int, Seq<char>),
) -> bool {
    &&& 0 <= one.0 < procedure.columns.len()
    &&& procedure.columns[one.0] == item.column@
    &&& one.1 == (match item.alias {
        Some(alias) => alias@,
        None => item.column@,
    })
}

proof fn named_columns_are_kept(
    procedure: ProcedureModel,
    items: Seq<YieldItem>,
    at: int,
    range: SourceRange,
    before: Seq<(int, Seq<char>)>,
)
    requires
        0 <= at <= items.len(),
        before.len() == at,
        forall|i: int| 0 <= i < at ==> is_kept(procedure, items[i], #[trigger] before[i]),
    ensures
        columns_yielded(procedure, items, at, range, before) matches Ok(kept) ==> kept.len()
            == items.len() && forall|i: int|
            0 <= i < items.len() ==> is_kept(procedure, items[i], #[trigger] kept[i]),
    decreases items.len() - at,
{
    if at < items.len() {
        a_column_is_found(procedure.columns, items[at].column@, 0);
        if let Some(place) = text_at(procedure.columns, items[at].column@, 0) {
            named_columns_are_kept(
                procedure,
                items,
                at + 1,
                range,
                before.push((place, crate::cypher::name_of_yield(items[at]))),
            );
        }
    }
}

/// A call keeps the columns that it names, each under its alias where it has one, and all of
/// them under their own names where it names none.
pub proof fn a_call_keeps_what_it_names(
    procedure: ProcedureModel,
    items: Seq<YieldItem>,
    range: SourceRange,
)
    ensures
        items.len() == 0 ==> (columns_kept(procedure, items, range) matches Ok(kept) && kept.len()
            == procedure.columns.len() && forall|i: int|
            0 <= i < kept.len() ==> #[trigger] kept[i] == (i, procedure.columns[i])),
        items.len() > 0 ==> (columns_kept(procedure, items, range) matches Ok(kept) ==> kept.len()
            == items.len() && forall|i: int|
            0 <= i < items.len() ==> is_kept(procedure, items[i], #[trigger] kept[i])),
{
    named_columns_are_kept(procedure, items, 0, range, Seq::empty());
}

/// Whether a row is one that a call makes of another.
pub open spec fn is_called_from(
    world: World,
    call: ProcedureCall,
    procedure: ProcedureModel,
    kept: Seq<(int, Seq<char>)>,
    row: Scope,
    found: Scope,
) -> bool {
    evaluated_from(world, call.arguments@, 0, row, None, Seq::empty()) matches Ok(arguments) && (
    procedure_rows(procedure, arguments, holder(world, arguments), world.context, call.range)
        matches Ok(produced) && row_per_result(row, kept, produced).contains(found))
}

/// A call is made once for each row, with the arguments that the row yields, and gives the rows
/// of them all.
pub proof fn a_call_is_made_for_every_row(
    world: World,
    call: ProcedureCall,
    procedure: ProcedureModel,
    kept: Seq<(int, Seq<char>)>,
    rows: Seq<Scope>,
    at: int,
    before: Seq<Scope>,
    one: Scope,
)
    requires
        0 <= at <= rows.len(),
    ensures
        rows_called(world, call, procedure, kept, rows, at, before) matches Ok(found) ==> (
        found.contains(one) <==> before.contains(one) || exists|i: int|
            at <= i < rows.len() && is_called_from(
                world,
                call,
                procedure,
                kept,
                #[trigger] rows[i],
                one,
            )),
    decreases rows.len() - at,
{
    if at < rows.len() {
        if let Ok(arguments) = evaluated_from(
            world,
            call.arguments@,
            0,
            rows[at],
            None,
            Seq::empty(),
        ) {
            if let Ok(produced) = procedure_rows(
                procedure,
                arguments,
                holder(world, arguments),
                world.context,
                call.range,
            ) {
                let own = row_per_result(rows[at], kept, produced);
                joined_contains(before, own, one);
                a_call_is_made_for_every_row(
                    world,
                    call,
                    procedure,
                    kept,
                    rows,
                    at + 1,
                    before + own,
                    one,
                );
                assert(is_called_from(world, call, procedure, kept, rows[at], one) <==> own.contains(
                    one,
                ));
            }
        }
    }
}

// -- Results -----------------------------------------------------------------------

/// Behind a `WITH` a name stands for the last column of that name, and no other name is bound.
pub proof fn only_what_is_passed_on_is_bound(
    names: Seq<Seq<char>>,
    row: Seq<QueryModel>,
    k: int,
    name: Seq<char>,
)
    requires
        names.len() == row.len(),
    ensures
        0 <= k < names.len() && (forall|j: int| k < j < names.len() ==> #[trigger] names[j] != names[k])
            ==> scope_of_row(names, row).contains_key(names[k]) && scope_of_row(names, row)[names[k]]
            == row[k],
        (forall|j: int| 0 <= j < names.len() ==> #[trigger] names[j] != name) ==> !scope_of_row(
            names,
            row,
        ).contains_key(name),
    decreases names.len(),
{
    let n = names.len() as int;
    if 0 <= k < n && (forall|j: int| k < j < n ==> #[trigger] names[j] != names[k]) {
        bound_by_columns(Map::empty(), names, row, n, k);
    }
    if forall|j: int| 0 <= j < n ==> #[trigger] names[j] != name {
        unbound_by_columns(Map::empty(), names, row, n, name);
    }
}

proof fn bound_by_columns(
    base: Scope,
    names: Seq<Seq<char>>,
    row: Seq<QueryModel>,
    count: int,
    k: int,
)
    requires
        0 <= k < count <= names.len(),
        names.len() == row.len(),
        forall|j: int| k < j < count ==> #[trigger] names[j] != names[k],
    ensures
        crate::projection::with_columns(base, names, row, count).contains_key(names[k]),
        crate::projection::with_columns(base, names, row, count)[names[k]] == row[k],
    decreases count,
{
    if k < count - 1 {
        bound_by_columns(base, names, row, count - 1, k);
        assert(names[count - 1] != names[k]);
    }
}

proof fn unbound_by_columns(
    base: Scope,
    names: Seq<Seq<char>>,
    row: Seq<QueryModel>,
    count: int,
    name: Seq<char>,
)
    requires
        0 <= count <= names.len(),
        names.len() == row.len(),
        !base.contains_key(name),
        forall|j: int| 0 <= j < count ==> #[trigger] names[j] != name,
    ensures
        !crate::projection::with_columns(base, names, row, count).contains_key(name),
    decreases count,
{
    if count > 0 {
        unbound_by_columns(base, names, row, count - 1, name);
        assert(names[count - 1] != name);
    }
}

/// A query that ends in a call returns the columns of the call with what each row binds to them.
pub proof fn a_trailing_call_is_returned(
    world: World,
    rows: Seq<Scope>,
    names: Seq<Seq<char>>,
    r: int,
    k: int,
)
    requires
        0 <= r < rows.len(),
        0 <= k < names.len(),
    ensures
        part_result(world, None, (rows, Some(names))) matches Ok((columns, found)) && columns
            == names && found.len() == rows.len() && found[r].len() == names.len() && (
        rows[r].contains_key(names[k]) ==> found[r][k] == rows[r][names[k]]) && (
        !rows[r].contains_key(names[k]) ==> found[r][k] == QueryModel::Null),
        part_result(world, None, (rows, None)) matches Ok((columns, found)) && columns.len() == 0
            && found.len() == 0,
{
}

} // verus!
