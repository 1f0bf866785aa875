//! What aggregates, ordering and paging give.

use crate::big::Relation;
use crate::cypher::Expression;
use crate::cypher::Projection;
use crate::cypher::ProjectionItem;
use crate::cypher::QueryErrorModel;
use crate::cypher::SortItem;
use crate::decimal::lowered;
use crate::evaluate::evaluated;
use crate::evaluate::World;
use crate::laws::expressions::fits;
use crate::laws::expressions::yields;
use crate::laws::rows::pushed_contains;
use crate::matching::Scope;
use crate::order::sorted;
use crate::order::sorted_is_in_order;
use crate::order::sorted_keeps_items;
use crate::projection::distinct_rows;
use crate::projection::filtered;
use crate::projection::float_sum;
use crate::projection::folded;
use crate::projection::folded_values;
use crate::projection::greatest;
use crate::projection::least;
use crate::projection::more_float;
use crate::projection::ordered;
use crate::projection::paged;
use crate::projection::passing;
use crate::projection::payloads;
use crate::projection::plain_rows;
use crate::projection::present_values;
use crate::projection::row_from;
use crate::projection::row_values;
use crate::projection::sort_key;
use crate::projection::sortable_rows;
use crate::projection::star;
use crate::projection::summed;
use crate::projection::Projected;
use crate::projection::ProjectedRow;
use crate::sorting::of_keys;
use crate::sorting::of_parts;
use crate::sorting::order_is_total;
use crate::sorting::seen;
use crate::sorting::Keyed;
use crate::sorting::KeyedModel;
use crate::value::compared;
use crate::value::of_lists;
use crate::value::QueryModel;
use vstd::prelude::*;

verus! {

// -- Columns -----------------------------------------------------------------------

proof fn columns_hold_their_values(
    world: World,
    items: Seq<ProjectionItem>,
    at: int,
    scope: Scope,
    before: Seq<QueryModel>,
)
    requires
        0 <= at <= items.len(),
        before.len() == at,
    ensures
        row_from(world, items, at, scope, before) matches Ok(row) ==> row.len() == items.len() && (
        forall|i: int| 0 <= i < at ==> row[i] == #[trigger] before[i]) && forall|i: int|
            at <= i < items.len() ==> yields(world, (#[trigger] items[i]).expression, scope, row[i]),
    decreases items.len() - at,
{
    if at < items.len() {
        if let Ok(value) = evaluated(world, items[at].expression, scope, None) {
            let more = before.push(value);
            columns_hold_their_values(world, items, at + 1, scope, more);
            if let Ok(row) = row_from(world, items, at, scope, before) {
                assert(row[at] == more[at]);
                assert forall|i: int| 0 <= i < at implies row[i] == #[trigger] before[i] by {
                    assert(more[i] == before[i]);
                }
            }
        }
    }
}

/// Without aggregates there is one row for each, in their order, and each column holds what its
/// expression yields there.
pub proof fn a_plain_projection_holds_its_values(
    world: World,
    items: Seq<ProjectionItem>,
    rows: Seq<Scope>,
    at: int,
    before: Seq<ProjectedRow>,
)
    requires
        0 <= at <= rows.len(),
        before.len() == at,
    ensures
        plain_rows(world, items, rows, at, before) matches Ok(found) ==> found.len() == rows.len() && (
        forall|k: int| 0 <= k < at ==> found[k] == #[trigger] before[k]) && forall|k: int, i: int|
            at <= k < rows.len() && 0 <= i < items.len() ==> (#[trigger] found[k]).0.len()
                == items.len() && yields(
                world,
                (#[trigger] items[i]).expression,
                rows[k],
                found[k].0[i],
            ),
    decreases rows.len() - at,
{
    if at < rows.len() {
        columns_hold_their_values(world, items, 0, rows[at], Seq::empty());
        if let Ok(row) = row_from(world, items, 0, rows[at], Seq::empty()) {
            let one = (
                row,
                crate::projection::with_columns(
                    rows[at],
                    crate::cypher::names_of_columns(items),
                    row,
                    row.len() as int,
                ),
            );
            let more = before.push(one);
            a_plain_projection_holds_its_values(world, items, rows, at + 1, more);
            if let Ok(found) = plain_rows(world, items, rows, at, before) {
                assert(found[at] == more[at]);
                assert forall|k: int| 0 <= k < at implies found[k] == #[trigger] before[k] by {
                    assert(more[k] == before[k]);
                }
            }
        }
    }
}

proof fn passing_rows(
    world: World,
    predicate: Expression,
    rows: Seq<ProjectedRow>,
    at: int,
    before: Seq<ProjectedRow>,
    row: ProjectedRow,
)
    requires
        0 <= at <= rows.len(),
    ensures
        passing(world, predicate, rows, at, before) matches Ok(found) ==> (found.contains(row) <==> (
        before.contains(row) || exists|i: int|
            at <= i < rows.len() && #[trigger] rows[i] == row && yields(
                world,
                predicate,
                row.1,
                QueryModel::Boolean(true),
            ))),
    decreases rows.len() - at,
{
    if at < rows.len() {
        if let Ok(value) = evaluated(world, predicate, rows[at].1, None) {
            if value == QueryModel::Boolean(true) {
                pushed_contains(before, rows[at], row);
                passing_rows(world, predicate, rows, at + 1, before.push(rows[at]), row);
            } else {
                passing_rows(world, predicate, rows, at + 1, before, row);
            }
        }
    }
}

/// A `WHERE` behind a projection keeps exactly the rows of which it is true.
pub proof fn a_filter_keeps_what_is_true(
    world: World,
    projection: Projection,
    rows: Seq<ProjectedRow>,
    row: ProjectedRow,
)
    ensures
        projection.predicate is None ==> filtered(world, projection, rows) == Ok::<
            _,
            QueryErrorModel,
        >(rows),
        projection.predicate matches Some(predicate) ==> (filtered(world, projection, rows) matches Ok(
            found,
        ) ==> (found.contains(row) <==> rows.contains(row) && yields(
            world,
            predicate,
            row.1,
            QueryModel::Boolean(true),
        ))),
{
    if let Some(predicate) = projection.predicate {
        passing_rows(world, predicate, rows, 0, Seq::empty(), row);
        if rows.contains(row) {
            let i = choose|i: int| 0 <= i < rows.len() && rows[i] == row;
            assert(rows[i] == row);
        }
    }
}

// -- Aggregates --------------------------------------------------------------------

/// Whether these are what an expression yields in the rows of a group, each in its place.
pub open spec fn are_yielded(
    world: World,
    argument: Expression,
    group: Seq<Scope>,
    all: Seq<QueryModel>,
) -> bool {
    all.len() == group.len() && forall|i: int|
        0 <= i < group.len() ==> yields(world, argument, #[trigger] group[i], all[i])
}

/// Those of values that are not null, in their order.
pub open spec fn without_null(all: Seq<QueryModel>) -> Seq<QueryModel> {
    all.filter(|value: QueryModel| value != QueryModel::Null)
}

proof fn present_are_not_null(
    world: World,
    argument: Expression,
    group: Seq<Scope>,
    at: int,
    before: Seq<QueryModel>,
    all: Seq<QueryModel>,
)
    requires
        0 <= at <= group.len(),
        are_yielded(world, argument, group, all),
        before == without_null(all.take(at)),
    ensures
        present_values(world, argument, group, at, before) == Ok::<_, QueryErrorModel>(
            without_null(all),
        ),
    decreases group.len() - at,
{
    if at < group.len() {
        assert(yields(world, argument, group[at], all[at]));
        let front = all.take(at + 1);
        assert(front.drop_last() =~= all.take(at));
        assert(front.last() == all[at]);
        reveal(Seq::filter);
        present_are_not_null(
            world,
            argument,
            group,
            at + 1,
            if all[at] == QueryModel::Null {
                before
            } else {
                before.push(all[at])
            },
            all,
        );
    } else {
        assert(all.take(at) =~= all);
    }
}

/// `count(*)` counts the rows, `count` the values that are not null, and `collect` lists those
/// in the order of the rows.
pub proof fn counting_and_collecting(
    world: World,
    name: Seq<char>,
    arguments: Seq<Expression>,
    group: Seq<Scope>,
    all: Seq<QueryModel>,
)
    requires
        arguments.len() == 1,
    ensures
        lowered(name) == "count"@ && star(arguments) ==> folded(world, name, arguments, group)
            == Ok::<_, QueryErrorModel>(QueryModel::Integer(group.len() as i64)),
        !star(arguments) && are_yielded(world, arguments[0], group, all) ==> {
            &&& lowered(name) == "count"@ ==> folded(world, name, arguments, group) == Ok::<
                _,
                QueryErrorModel,
            >(QueryModel::Integer(without_null(all).len() as i64))
            &&& lowered(name) == "collect"@ ==> folded(world, name, arguments, group) == Ok::<
                _,
                QueryErrorModel,
            >(QueryModel::List(without_null(all)))
        },
{
    aggregate_names();
    if are_yielded(world, arguments[0], group, all) {
        reveal(Seq::filter);
        assert(without_null(all.take(0)) =~= Seq::empty());
        present_are_not_null(world, arguments[0], group, 0, Seq::empty(), all);
    }
}

proof fn aggregate_names()
    ensures
        "count"@ != "collect"@ && "count"@ != "min"@ && "count"@ != "max"@ && "count"@ != "sum"@
            && "count"@ != "avg"@,
        "collect"@ != "min"@ && "collect"@ != "max"@ && "collect"@ != "sum"@ && "collect"@ != "avg"@,
        "min"@ != "max"@ && "min"@ != "sum"@ && "min"@ != "avg"@,
        "max"@ != "sum"@ && "max"@ != "avg"@ && "sum"@ != "avg"@,
{
    reveal_strlit("count");
    reveal_strlit("collect");
    reveal_strlit("min");
    reveal_strlit("max");
    reveal_strlit("sum");
    reveal_strlit("avg");
    assert("count"@.len() == 5 && "collect"@.len() == 7 && "min"@.len() == 3 && "max"@.len() == 3
        && "sum"@.len() == 3 && "avg"@.len() == 3);
    assert("min"@[1] == 'i' && "max"@[1] == 'a' && "sum"@[1] == 'u' && "avg"@[1] == 'v');
}

proof fn least_is_least(values: Seq<QueryModel>, at: int, best: QueryModel)
    requires
        0 <= at <= values.len(),
    ensures
        least(values, at, best) == best || exists|i: int|
            at <= i < values.len() && #[trigger] values[i] == least(values, at, best),
        compared(best, least(values, at, best)) != Relation::Below,
        forall|i: int|
            at <= i < values.len() ==> compared(#[trigger] values[i], least(values, at, best))
                != Relation::Below,
    decreases values.len() - at,
{
    order_is_total(best, best, best);
    if at < values.len() {
        let next = if compared(values[at], best) == Relation::Below {
            values[at]
        } else {
            best
        };
        least_is_least(values, at + 1, next);
        let found = least(values, at, best);
        order_is_total(values[at], best, found);
        order_is_total(best, values[at], found);
        order_is_total(best, found, values[at]);
        order_is_total(values[at], found, best);
        order_is_total(found, values[at], best);
        order_is_total(found, best, values[at]);
        assert(values[at] == values[at]);
    }
}

proof fn greatest_is_greatest(values: Seq<QueryModel>, at: int, best: QueryModel)
    requires
        0 <= at <= values.len(),
    ensures
        greatest(values, at, best) == best || exists|i: int|
            at <= i < values.len() && #[trigger] values[i] == greatest(values, at, best),
        compared(greatest(values, at, best), best) != Relation::Below,
        forall|i: int|
            at <= i < values.len() ==> compared(greatest(values, at, best), #[trigger] values[i])
                != Relation::Below,
    decreases values.len() - at,
{
    order_is_total(best, best, best);
    if at < values.len() {
        let next = if compared(values[at], best) == Relation::Below {
            best
        } else {
            values[at]
        };
        greatest_is_greatest(values, at + 1, next);
        let found = greatest(values, at, best);
        order_is_total(values[at], best, found);
        order_is_total(best, values[at], found);
        order_is_total(best, found, values[at]);
        order_is_total(values[at], found, best);
        order_is_total(found, values[at], best);
        order_is_total(found, best, values[at]);
        assert(values[at] == values[at]);
    }
}

/// `min` is one of the values, and none comes before it. `max` is one of the values, and it
/// comes before none. Of no values both are null.
pub proof fn the_least_and_the_greatest(name: Seq<char>, values: Seq<QueryModel>)
    ensures
        (lowered(name) == "min"@ || lowered(name) == "max"@) && values.len() == 0 ==> folded_values(
            name,
            values,
        ) == Ok::<_, QueryErrorModel>(QueryModel::Null),
        lowered(name) == "min"@ && values.len() > 0 ==> (folded_values(name, values) matches Ok(found)
            && values.contains(found) && forall|i: int|
            0 <= i < values.len() ==> compared(#[trigger] values[i], found) != Relation::Below),
        lowered(name) == "max"@ && values.len() > 0 ==> (folded_values(name, values) matches Ok(found)
            && values.contains(found) && forall|i: int|
            0 <= i < values.len() ==> compared(found, #[trigger] values[i]) != Relation::Below),
{
    aggregate_names();
    if values.len() > 0 {
        least_is_least(values, 1, values[0]);
        greatest_is_greatest(values, 1, values[0]);
        assert(values.contains(values[0]));
    }
}

/// The sum of integers.
pub open spec fn total(values: Seq<QueryModel>) -> int
    decreases values.len(),
{
    if values.len() == 0 {
        0
    } else {
        total(values.drop_last()) + values.last()->Integer_0
    }
}

/// Whether values are integers alone.
pub open spec fn all_integers(values: Seq<QueryModel>) -> bool {
    forall|i: int| 0 <= i < values.len() ==> (#[trigger] values[i]) is Integer
}

proof fn integers_are_summed(
    name: Seq<char>,
    values: Seq<QueryModel>,
    at: int,
    floats: Option<u64>,
)
    requires
        0 <= at <= values.len(),
        all_integers(values),
    ensures
        summed(name, values, at, total(values.take(at)), floats, false) == summed(
            name,
            values,
            values.len() as int,
            total(values),
            floats,
            false,
        ),
    decreases values.len() - at,
{
    if at < values.len() {
        assert(values[at] is Integer);
        assert(values.take(at + 1).drop_last() =~= values.take(at));
        integers_are_summed(name, values, at + 1, floats);
    } else {
        assert(values.take(at) =~= values);
    }
}

/// `sum` of integers adds them all up, and is an integer where that fits into 64 bits. A value
/// that is no number is refused.
pub proof fn sums_add_up(name: Seq<char>, values: Seq<QueryModel>, k: int)
    requires
        lowered(name) == "sum"@,
    ensures
        all_integers(values) && fits(total(values)) ==> folded_values(name, values) == Ok::<
            _,
            QueryErrorModel,
        >(QueryModel::Integer(total(values) as i64)),
        0 <= k < values.len() && !(values[k] is Integer) && !(values[k] is Float) ==> folded_values(
            name,
            values,
        ) is Err,
{
    aggregate_names();
    if all_integers(values) {
        assert(values.take(0) =~= Seq::empty());
        integers_are_summed(name, values, 0, Some(0));
    }
    if 0 <= k < values.len() && !(values[k] is Integer) && !(values[k] is Float) {
        no_number_is_summed(name, values, 0, 0, Some(0), false, k);
    }
}

proof fn no_number_is_summed(
    name: Seq<char>,
    values: Seq<QueryModel>,
    at: int,
    integers: int,
    floats: Option<u64>,
    mixed: bool,
    k: int,
)
    requires
        0 <= at <= k < values.len(),
        !(values[k] is Integer) && !(values[k] is Float),
    ensures
        summed(name, values, at, integers, floats, mixed) is Err,
    decreases values.len() - at,
{
    match values[at] {
        QueryModel::Integer(number) => {
            no_number_is_summed(name, values, at + 1, integers + number, floats, mixed, k);
        },
        QueryModel::Float(bits) => {
            no_number_is_summed(name, values, at + 1, integers, more_float(floats, bits), true, k);
        },
        _ => {},
    }
}

/// A number as a float.
pub open spec fn float_of(value: QueryModel) -> u64 {
    match value {
        QueryModel::Integer(number) => crate::float::from_int(number as int),
        QueryModel::Float(bits) => bits,
        _ => 0,
    }
}

proof fn float_sums_grow(name: Seq<char>, values: Seq<QueryModel>, last: QueryModel, at: int, sum: Option<u64>)
    requires
        0 <= at <= values.len(),
        last is Integer || last is Float,
    ensures
        float_sum(name, values, at, sum) matches Ok(before) ==> float_sum(
            name,
            values.push(last),
            at,
            sum,
        ) == Ok::<_, QueryErrorModel>(more_float(before, float_of(last))),
    decreases values.len() - at,
{
    let more = values.push(last);
    if at < values.len() {
        assert(more[at] == values[at]);
        match values[at] {
            QueryModel::Integer(number) => float_sums_grow(
                name,
                values,
                last,
                at + 1,
                more_float(sum, crate::float::from_int(number as int)),
            ),
            QueryModel::Float(bits) => float_sums_grow(name, values, last, at + 1, more_float(sum, bits)),
            _ => {},
        }
    } else {
        assert(more[at] == last);
        assert(float_sum(name, more, at + 1, more_float(sum, float_of(last))) == Ok::<
            _,
            QueryErrorModel,
        >(more_float(sum, float_of(last))));
    }
}

/// The sum of floats starts at nothing, and each number more is added to it as a float.
pub proof fn float_sums_add_up(name: Seq<char>, values: Seq<QueryModel>, last: QueryModel)
    requires
        last is Integer || last is Float,
    ensures
        float_sum(name, Seq::empty(), 0, Some(0)) == Ok::<Option<u64>, QueryErrorModel>(Some(0)),
        float_sum(name, values, 0, Some(0)) matches Ok(before) ==> (float_sum(
            name,
            values.push(last),
            0,
            Some(0),
        ) == Ok::<_, QueryErrorModel>(more_float(before, float_of(last)))),
{
    float_sums_grow(name, values, last, 0, Some(0));
}

/// `avg` divides the sum of the values, each as a float, by how many there are. Of no values it
/// is null.
pub proof fn an_average_is_the_sum_by_the_count(
    name: Seq<char>,
    values: Seq<QueryModel>,
    sum: u64,
)
    requires
        lowered(name) == "avg"@,
        float_sum(name, values, 0, Some(0)) == Ok::<Option<u64>, QueryErrorModel>(Some(sum)),
    ensures
        values.len() == 0 ==> folded_values(name, values) == Ok::<_, QueryErrorModel>(
            QueryModel::Null,
        ),
        values.len() > 0 ==> (folded_values(name, values) matches Ok(found) && (crate::float::finite(crate::float::divided(sum, values.len() as u64)) ==> found is Float) && (
        found matches QueryModel::Float(bits) ==> bits == crate::float::divided(
            sum,
            values.len() as u64,
        ))),
{
    aggregate_names();
}

// -- Ordering ----------------------------------------------------------------------

/// Whether one row belongs behind another: at the first sort expression in which they differ
/// its value is the larger one, or the smaller one where that sorts descending.
pub open spec fn belongs_behind(
    world: World,
    order: Seq<SortItem>,
    left: Scope,
    right: Scope,
) -> bool {
    exists|k: int| #[trigger] decides_behind(world, order, left, right, k)
}

/// Whether the sort expression at a place is the first in which two rows differ, and puts the
/// first behind the second.
pub open spec fn decides_behind(
    world: World,
    order: Seq<SortItem>,
    left: Scope,
    right: Scope,
    k: int,
) -> bool {
    &&& 0 <= k < order.len()
    &&& forall|m: int|
        0 <= m < k ==> relation_by(world, (#[trigger] order[m]).expression, left, right)
            == Relation::Same
    &&& relation_by(world, order[k].expression, left, right) == (if order[k].descending {
        Relation::Below
    } else {
        Relation::Above
    })
}

/// How the values of an expression in two rows compare.
pub open spec fn relation_by(
    world: World,
    expression: Expression,
    left: Scope,
    right: Scope,
) -> Relation {
    match (evaluated(world, expression, left, None), evaluated(world, expression, right, None)) {
        (Ok(a), Ok(b)) => compared(a, b),
        _ => Relation::Same,
    }
}

/// Whether a key holds what the sort expressions yield in a row.
spec fn is_key(world: World, order: Seq<SortItem>, scope: Scope, key: Seq<(bool, QueryModel)>) -> bool {
    key.len() == order.len() && forall|i: int|
        0 <= i < order.len() ==> (#[trigger] key[i]).0 == order[i].descending && yields(
            world,
            order[i].expression,
            scope,
            key[i].1,
        )
}

proof fn keys_hold_the_values(
    world: World,
    order: Seq<SortItem>,
    at: int,
    scope: Scope,
    before: Seq<(bool, QueryModel)>,
)
    requires
        0 <= at <= order.len(),
        before.len() == at,
        forall|i: int|
            0 <= i < at ==> (#[trigger] before[i]).0 == order[i].descending && yields(
                world,
                order[i].expression,
                scope,
                before[i].1,
            ),
    ensures
        sort_key(world, order, at, scope, before) matches Ok(key) ==> is_key(world, order, scope, key),
    decreases order.len() - at,
{
    if at < order.len() {
        if let Ok(value) = evaluated(world, order[at].expression, scope, None) {
            keys_hold_the_values(
                world,
                order,
                at + 1,
                scope,
                before.push((order[at].descending, value)),
            );
        }
    }
}

proof fn rows_have_their_keys(
    world: World,
    order: Seq<SortItem>,
    rows: Seq<ProjectedRow>,
    at: int,
    before: Seq<KeyedModel<ProjectedRow>>,
)
    requires
        0 <= at <= rows.len(),
        before.len() == at,
        forall|i: int|
            0 <= i < at ==> (#[trigger] before[i]).payload == rows[i] && is_key(
                world,
                order,
                rows[i].1,
                before[i].key,
            ),
    ensures
        sortable_rows(world, order, rows, at, before) matches Ok(keyed) ==> keyed.len() == rows.len()
            && forall|i: int|
            0 <= i < rows.len() ==> (#[trigger] keyed[i]).payload == rows[i] && is_key(
                world,
                order,
                rows[i].1,
                keyed[i].key,
            ),
    decreases rows.len() - at,
{
    if at < rows.len() {
        keys_hold_the_values(world, order, 0, rows[at].1, Seq::empty());
        if let Ok(key) = sort_key(world, order, 0, rows[at].1, Seq::empty()) {
            rows_have_their_keys(
                world,
                order,
                rows,
                at + 1,
                before.push(KeyedModel { key, payload: rows[at] }),
            );
        }
    }
}

proof fn keys_decide(
    world: World,
    order: Seq<SortItem>,
    left: Scope,
    right: Scope,
    a: Seq<(bool, QueryModel)>,
    b: Seq<(bool, QueryModel)>,
    at: int,
    k: int,
)
    requires
        is_key(world, order, left, a),
        is_key(world, order, right, b),
        decides_behind(world, order, left, right, k),
        0 <= at <= k,
    ensures
        of_keys(b, a, at) == Relation::Below,
    decreases k - at,
{
    assert(a[at].0 == order[at].descending && b[at].0 == order[at].descending);
    order_is_total(a[at].1, b[at].1, a[at].1);
    if at < k {
        assert(relation_by(world, order[at].expression, left, right) == Relation::Same);
        assert(of_parts(b[at], a[at]) == Relation::Same);
        keys_decide(world, order, left, right, a, b, at + 1, k);
    }
}

/// `ORDER BY` gives the rows that went in, in such an order that no row belongs behind one that
/// follows it: by the first sort expression in which two rows differ, ascending unless it says
/// descending.
pub proof fn an_order_is_what_was_asked_for(
    world: World,
    projection: Projection,
    rows: Seq<ProjectedRow>,
)
    ensures
        projection.order_by@.len() == 0 ==> ordered(world, projection, rows) == Ok::<
            _,
            QueryErrorModel,
        >(rows),
        ordered(world, projection, rows) matches Ok(found) ==> (found.to_multiset()
            == rows.to_multiset() && forall|i: int, j: int|
            0 <= i < j < found.len() ==> !belongs_behind(
                world,
                projection.order_by@,
                (#[trigger] found[i]).1,
                (#[trigger] found[j]).1,
            )),
{
    let order = projection.order_by@;
    if order.len() > 0 {
        rows_have_their_keys(world, order, rows, 0, Seq::empty());
        if let Ok(keyed) = sortable_rows(world, order, rows, 0, Seq::empty()) {
            let all = sorted::<Keyed<Projected>>(keyed);
            let found = payloads(all);
            sorted_is_in_order::<Keyed<Projected>>(keyed);
            sorted_keeps_items::<Keyed<Projected>>(keyed);
            crate::order::sorted_length::<Keyed<Projected>>(keyed);
            payloads_keep(all, keyed);
            assert(payloads(keyed) =~= rows);
            assert forall|i: int| 0 <= i < all.len() implies is_key(
                world,
                order,
                (#[trigger] all[i]).payload.1,
                all[i].key,
            ) by {
                assert(all.contains(all[i]));
                crate::order::sorted_contains::<Keyed<Projected>>(keyed, all[i]);
                let k = choose|k: int| 0 <= k < keyed.len() && keyed[k] == all[i];
                assert(keyed[k].payload == rows[k]);
            }
            assert forall|i: int, j: int| 0 <= i < j < found.len() implies !belongs_behind(
                world,
                order,
                (#[trigger] found[i]).1,
                (#[trigger] found[j]).1,
            ) by {
                let a = all[i];
                let b = all[j];
                if belongs_behind(world, order, found[i].1, found[j].1) {
                    let k = choose|k: int| #[trigger]
                        decides_behind(world, order, found[i].1, found[j].1, k);
                    keys_decide(world, order, found[i].1, found[j].1, a.key, b.key, 0, k);
                    assert(!<Keyed<Projected> as crate::order::Ordered>::before(all[j], all[i]));
                }
            }
        }
    } else {
        assert forall|i: int, j: int| 0 <= i < j < rows.len() implies !belongs_behind(
            world,
            order,
            (#[trigger] rows[i]).1,
            (#[trigger] rows[j]).1,
        ) by {}
    }
}

proof fn payloads_keep<P>(left: Seq<KeyedModel<P>>, right: Seq<KeyedModel<P>>)
    requires
        left.to_multiset() == right.to_multiset(),
    ensures
        payloads(left).to_multiset() == payloads(right).to_multiset(),
    decreases left.len(),
{
    broadcast use vstd::seq_lib::group_to_multiset_ensures;

    left.to_multiset_ensures();
    right.to_multiset_ensures();
    assert(left.len() == right.len());
    if left.len() > 0 {
        let last = left.last();
        let rest = left.drop_last();
        assert(left =~= rest.push(last));
        assert(right.to_multiset().count(last) > 0);
        assert(right.contains(last));
        let k = choose|k: int| 0 <= k < right.len() && right[k] == last;
        let other = right.remove(k);
        assert(rest.to_multiset() =~= left.to_multiset().remove(last));
        assert(other.to_multiset() =~= right.to_multiset().remove(last));
        payloads_keep(rest, other);
        assert(payloads(left) =~= payloads(rest).push(last.payload));
        assert(payloads(right).remove(k) =~= payloads(other));
        assert(payloads(right)[k] == last.payload);
        assert(payloads(right).to_multiset() =~= payloads(other).to_multiset().insert(last.payload));
    } else {
        assert(payloads(left) =~= payloads(right));
    }
}

// -- Paging ------------------------------------------------------------------------

/// The number that a `SKIP` or a `LIMIT` yields.
pub open spec fn says(world: World, expression: Expression, number: int) -> bool {
    number <= usize::MAX && exists|value: i64|
        value == number && #[trigger] yields(world, expression, Map::empty(), QueryModel::Integer(value))
}

/// `SKIP` leaves out so many rows at the front and `LIMIT` gives at most so many of the rest,
/// each in its place. A negative number is refused.
pub proof fn paging(
    world: World,
    projection: Projection,
    skip: Expression,
    limit: Expression,
    rows: Seq<Seq<QueryModel>>,
    n: int,
    m: int,
)
    requires
        says(world, skip, n),
        says(world, limit, m),
        projection.skip == Some(skip),
        projection.limit == Some(limit),
    ensures
        n < 0 || m < 0 ==> paged(world, projection, rows) is Err,
        n >= 0 && m >= 0 ==> (paged(world, projection, rows) matches Ok(found) && found.len() <= m
            && (n >= rows.len() ==> found.len() == 0) && (n < rows.len() ==> (found.len() == m
            || found.len() == rows.len() - n) && found.len() <= rows.len() - n) && forall|i: int|
            0 <= i < found.len() ==> #[trigger] found[i] == rows[n + i]),
{
}

/// Without a `SKIP` and a `LIMIT` every row is given, and with one of them it alone counts.
pub proof fn paging_with_less(
    world: World,
    projection: Projection,
    number: Expression,
    rows: Seq<Seq<QueryModel>>,
    n: int,
)
    requires
        says(world, number, n),
        n >= 0,
    ensures
        projection.skip is None && projection.limit is None ==> paged(world, projection, rows)
            == Ok::<_, QueryErrorModel>(rows),
        projection.skip == Some(number) && projection.limit is None && n <= rows.len() ==> (paged(
            world,
            projection,
            rows,
        ) matches Ok(found) && rows.take(n) + found == rows),
        projection.skip is None && projection.limit == Some(number) && n <= rows.len() ==> (paged(
            world,
            projection,
            rows,
        ) matches Ok(found) && found.len() == n && found + rows.skip(n) == rows),
{
    if n <= rows.len() {
        assert(rows.take(n) + rows.skip(n) =~= rows);
    }
}

// -- Distinct ----------------------------------------------------------------------

pub proof fn seen_means_there(rows: Seq<Seq<QueryModel>>, count: int, row: Seq<QueryModel>)
    requires
        0 <= count <= rows.len(),
    ensures
        seen(rows, count, row) <==> exists|i: int|
            0 <= i < count && of_lists(#[trigger] rows[i], row, 0) == Relation::Same,
    decreases count,
{
    if count > 0 {
        seen_means_there(rows, count - 1, row);
        if of_lists(rows[count - 1], row, 0) == Relation::Same {
            assert(of_lists(rows[count - 1], row, 0) == Relation::Same);
        }
    }
}

/// Whether a row compares as the same as one of others.
pub open spec fn is_represented(found: Seq<Seq<QueryModel>>, row: Seq<QueryModel>) -> bool {
    exists|k: int| 0 <= k < found.len() && of_lists(#[trigger] found[k], row, 0) == Relation::Same
}

/// Whether a row compares as the same as one of others, which carry what they bind.
pub open spec fn stands_for(found: Seq<ProjectedRow>, row: Seq<QueryModel>) -> bool {
    exists|k: int| 0 <= k < found.len() && of_lists((#[trigger] found[k]).0, row, 0) == Relation::Same
}

/// `DISTINCT` drops a row only where one that compares as the same stays, and gives no row
/// that was not there.
pub proof fn distinct_keeps_one_of_each(
    rows: Seq<ProjectedRow>,
    at: int,
    before: Seq<ProjectedRow>,
)
    requires
        0 <= at <= rows.len(),
    ensures
        forall|i: int| 0 <= i < before.len() ==> distinct_rows(rows, at, before)[i] == #[trigger] before[i],
        distinct_rows(rows, at, before).len() >= before.len(),
        forall|k: int|
            before.len() <= k < distinct_rows(rows, at, before).len() ==> rows.contains(
                #[trigger] distinct_rows(rows, at, before)[k],
            ),
        forall|i: int|
            at <= i < rows.len() ==> stands_for(
                distinct_rows(rows, at, before),
                (#[trigger] rows[i]).0,
            ),
    decreases rows.len() - at,
{
    if at < rows.len() {
        let found = distinct_rows(rows, at, before);
        seen_means_there(row_values(before), before.len() as int, rows[at].0);
        if seen(row_values(before), before.len() as int, rows[at].0) {
            distinct_keeps_one_of_each(rows, at + 1, before);
            let k = choose|k: int|
                0 <= k < before.len() && of_lists(#[trigger] row_values(before)[k], rows[at].0, 0)
                    == Relation::Same;
            assert(found[k] == before[k]);
            assert(stands_for(found, rows[at].0));
        } else {
            let more = before.push(rows[at]);
            distinct_keeps_one_of_each(rows, at + 1, more);
            assert(found[before.len() as int] == more[before.len() as int]);
            same_as_itself(rows[at].0, 0);
            assert(stands_for(found, rows[at].0));
            assert forall|i: int| 0 <= i < before.len() implies found[i] == #[trigger] before[i] by {
                assert(more[i] == before[i]);
            }
        }
    }
}

pub proof fn same_as_itself(row: Seq<QueryModel>, at: int)
    requires
        0 <= at <= row.len(),
    ensures
        of_lists(row, row, at) == Relation::Same,
    decreases row.len() - at,
{
    if at < row.len() {
        order_is_total(row[at], row[at], row[at]);
        same_as_itself(row, at + 1);
    }
}

} // verus!
