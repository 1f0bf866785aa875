//! How rows are grouped, and what a group is folded to.

use crate::big::Relation;
use crate::bindings::Bindings;
use crate::cypher::aggregate_name;
use crate::cypher::aggregates_of;
use crate::cypher::calls_of;
use crate::cypher::Expression;
use crate::cypher::ProjectionItem;
use crate::cypher::QueryErrorModel;
use crate::decimal::lowered;
use crate::evaluate::evaluated;
use crate::evaluate::World;
use crate::laws::projections::relation_by;
use crate::matching::Scope;
use crate::order::sorted;
use crate::order::sorted_is_in_order;
use crate::order::Ordered;
use crate::projection::all_calls;
use crate::projection::folded;
use crate::projection::folded_call;
use crate::projection::folded_calls;
use crate::projection::group_key;
use crate::projection::group_row;
use crate::projection::grouped_row;
use crate::projection::groups_of;
use crate::projection::groups_or_one;
use crate::projection::keyed_rows;
use crate::projection::payloads;
use crate::projection::ungrouped;
use crate::sorting::keys_chain;
use crate::sorting::of_keys;
use crate::sorting::of_parts;
use crate::sorting::Keyed;
use crate::sorting::KeyedModel;
use crate::value::QueryModel;
use vstd::prelude::*;

verus! {

// -- Keys --------------------------------------------------------------------------

/// Whether two rows agree in every column without an aggregate, from `at` on.
pub open spec fn agree(
    world: World,
    items: Seq<ProjectionItem>,
    at: int,
    left: Scope,
    right: Scope,
) -> bool {
    forall|i: int|
        at <= i < items.len() && aggregates_of((#[trigger] items[i]).expression) == 0
            ==> relation_by(world, items[i].expression, left, right) == Relation::Same
}

proof fn keys_tell_whether_rows_agree(
    world: World,
    items: Seq<ProjectionItem>,
    at: int,
    left: Scope,
    right: Scope,
    first: Seq<(bool, QueryModel)>,
    second: Seq<(bool, QueryModel)>,
)
    requires
        0 <= at <= items.len(),
        first.len() == second.len(),
        group_key(world, items, at, left, first) is Ok,
        group_key(world, items, at, right, second) is Ok,
    ensures
        ({
            let a = group_key(world, items, at, left, first)->Ok_0;
            let b = group_key(world, items, at, right, second)->Ok_0;
            &&& a.len() == b.len() >= first.len()
            &&& forall|i: int| 0 <= i < first.len() ==> a[i] == #[trigger] first[i]
            &&& forall|i: int| 0 <= i < second.len() ==> b[i] == #[trigger] second[i]
            &&& of_keys(a, b, first.len() as int) == Relation::Same <==> agree(
                world,
                items,
                at,
                left,
                right,
            )
        }),
    decreases items.len() - at,
{
    let a = group_key(world, items, at, left, first)->Ok_0;
    let b = group_key(world, items, at, right, second)->Ok_0;
    let n = first.len() as int;
    if at < items.len() {
        if aggregates_of(items[at].expression) > 0 {
            keys_tell_whether_rows_agree(world, items, at + 1, left, right, first, second);
        } else {
            let x = evaluated(world, items[at].expression, left, None)->Ok_0;
            let y = evaluated(world, items[at].expression, right, None)->Ok_0;
            let more = first.push((false, x));
            let other = second.push((false, y));
            keys_tell_whether_rows_agree(world, items, at + 1, left, right, more, other);
            assert forall|i: int| 0 <= i < n implies a[i] == #[trigger] first[i] by {
                assert(more[i] == first[i]);
            }
            assert forall|i: int| 0 <= i < n implies b[i] == #[trigger] second[i] by {
                assert(other[i] == second[i]);
            }
            assert(a[n] == more[n]);
            assert(b[n] == other[n]);
            assert(of_parts(a[n], b[n]) == crate::value::compared(x, y));
        }
    }
}

// -- Groups ------------------------------------------------------------------------

/// The rows of groups, one group after the other.
pub open spec fn laid_out(groups: Seq<Seq<Scope>>) -> Seq<Scope>
    decreases groups.len(),
{
    if groups.len() == 0 {
        Seq::empty()
    } else {
        laid_out(groups.drop_last()) + groups.last()
    }
}

/// The group that a row in order belongs to: one more wherever the key changes.
pub open spec fn home(keyed: Seq<KeyedModel<Scope>>, i: int) -> int
    decreases i,
{
    if i <= 0 {
        0
    } else if of_keys(keyed[i - 1].key, keyed[i].key, 0) == Relation::Same {
        home(keyed, i - 1)
    } else {
        home(keyed, i - 1) + 1
    }
}

/// The rows of one group, of the first `count`, in their order.
pub open spec fn rows_at(keyed: Seq<KeyedModel<Scope>>, g: int, count: int) -> Seq<Scope>
    decreases count,
{
    if count <= 0 {
        Seq::empty()
    } else if home(keyed, count - 1) == g {
        rows_at(keyed, g, count - 1).push(keyed[count - 1].payload)
    } else {
        rows_at(keyed, g, count - 1)
    }
}

proof fn homes_grow(keyed: Seq<KeyedModel<Scope>>, i: int, j: int)
    requires
        0 <= i <= j,
    ensures
        0 <= home(keyed, i) <= home(keyed, j),
    decreases j,
{
    if i < j {
        homes_grow(keyed, i, j - 1);
    } else if i > 0 {
        homes_grow(keyed, i - 1, j - 1);
    }
}

proof fn nothing_is_there_yet(keyed: Seq<KeyedModel<Scope>>, g: int, count: int)
    requires
        0 <= count,
        count > 0 ==> home(keyed, count - 1) < g,
    ensures
        rows_at(keyed, g, count) == Seq::<Scope>::empty(),
    decreases count,
{
    if count > 0 {
        if count > 1 {
            homes_grow(keyed, count - 2, count - 1);
        }
        nothing_is_there_yet(keyed, g, count - 1);
    }
}

/// The groups are those of their rows: as many as there are different runs of keys, each with
/// its rows in their order.
pub proof fn every_row_is_in_its_group(keyed: Seq<KeyedModel<Scope>>, count: int)
    requires
        0 <= count <= keyed.len(),
    ensures
        count > 0 ==> groups_of(keyed, count).len() == home(keyed, count - 1) + 1,
        count == 0 ==> groups_of(keyed, count).len() == 0,
        forall|g: int|
            0 <= g < groups_of(keyed, count).len() ==> #[trigger] groups_of(keyed, count)[g]
                == rows_at(keyed, g, count),
        laid_out(groups_of(keyed, count)) == payloads(keyed).take(count),
    decreases count,
{
    if count > 0 {
        every_row_is_in_its_group(keyed, count - 1);
        let before = groups_of(keyed, count - 1);
        let after = groups_of(keyed, count);
        let row = keyed[count - 1].payload;
        let here = home(keyed, count - 1);
        homes_grow(keyed, 0, count - 1);
        assert(payloads(keyed).take(count) =~= payloads(keyed).take(count - 1).push(row));
        if count > 1 && of_keys(keyed[count - 2].key, keyed[count - 1].key, 0) == Relation::Same {
            assert(after.drop_last() =~= before.drop_last());
            assert(after.last() == before.last().push(row));
            assert(laid_out(after) =~= laid_out(before).push(row));
            assert forall|g: int| 0 <= g < after.len() implies #[trigger] after[g] == rows_at(
                keyed,
                g,
                count,
            ) by {
                assert(before[g] == rows_at(keyed, g, count - 1));
            }
        } else {
            assert(after.drop_last() =~= before);
            assert(after.last() =~= seq![row]);
            assert(laid_out(after) =~= laid_out(before).push(row));
            assert(here == before.len());
            nothing_is_there_yet(keyed, here, count - 1);
            assert forall|g: int| 0 <= g < after.len() implies #[trigger] after[g] == rows_at(
                keyed,
                g,
                count,
            ) by {
                if g < before.len() {
                    assert(after[g] == before[g]);
                    assert(before[g] == rows_at(keyed, g, count - 1));
                } else {
                    assert(rows_at(keyed, g, count) =~= seq![row]);
                }
            }
        }
    } else {
        assert(payloads(keyed).take(0) =~= Seq::empty());
    }
}

/// Whether keys stand in order.
pub open spec fn keys_in_order(keyed: Seq<KeyedModel<Scope>>) -> bool {
    forall|i: int, j: int|
        0 <= i < j < keyed.len() ==> of_keys((#[trigger] keyed[j]).key, (#[trigger] keyed[i]).key, 0)
            != Relation::Below
}

proof fn same_as_itself(a: Seq<(bool, QueryModel)>)
    ensures
        of_keys(a, a, 0) == Relation::Same,
{
    keys_chain(a, a, a, 0);
}

proof fn three_in_order(
    a: Seq<(bool, QueryModel)>,
    b: Seq<(bool, QueryModel)>,
    c: Seq<(bool, QueryModel)>,
)
    requires
        of_keys(b, a, 0) != Relation::Below,
        of_keys(c, b, 0) != Relation::Below,
    ensures
        of_keys(a, c, 0) == Relation::Same <==> of_keys(a, b, 0) == Relation::Same && of_keys(
            b,
            c,
            0,
        ) == Relation::Same,
{
    keys_chain(a, b, c, 0);
    keys_chain(b, c, a, 0);
}

proof fn one_home_means_one_key(keyed: Seq<KeyedModel<Scope>>, i: int, j: int)
    requires
        keys_in_order(keyed),
        0 <= i <= j < keyed.len(),
    ensures
        home(keyed, i) == home(keyed, j) <==> of_keys(keyed[i].key, keyed[j].key, 0)
            == Relation::Same,
    decreases j,
{
    let a = keyed[i].key;
    let c = keyed[j].key;
    same_as_itself(a);
    if i < j {
        let b = keyed[j - 1].key;
        one_home_means_one_key(keyed, i, j - 1);
        homes_grow(keyed, i, j - 1);
        assert(of_keys(b, a, 0) != Relation::Below);
        three_in_order(a, b, c);
    }
}

proof fn rows_have_their_keys(
    world: World,
    items: Seq<ProjectionItem>,
    rows: Seq<Scope>,
    at: int,
    before: Seq<KeyedModel<Scope>>,
)
    requires
        0 <= at <= rows.len(),
        before.len() == at,
        forall|i: int| 0 <= i < at ==> is_keyed(world, items, rows[i], #[trigger] before[i]),
    ensures
        keyed_rows(world, items, rows, at, before) matches Ok(keyed) ==> keyed.len() == rows.len()
            && forall|i: int|
            0 <= i < rows.len() ==> is_keyed(world, items, rows[i], #[trigger] keyed[i]),
    decreases rows.len() - at,
{
    if at < rows.len() {
        if let Ok(key) = group_key(world, items, 0, rows[at], Seq::empty()) {
            rows_have_their_keys(
                world,
                items,
                rows,
                at + 1,
                before.push(KeyedModel { key, payload: rows[at] }),
            );
        }
    }
}

/// Whether a row stands under its own key.
spec fn is_keyed(
    world: World,
    items: Seq<ProjectionItem>,
    row: Scope,
    keyed: KeyedModel<Scope>,
) -> bool {
    keyed.payload == row && group_key(world, items, 0, row, Seq::empty()) == Ok::<
        _,
        QueryErrorModel,
    >(keyed.key)
}

/// Two rows are in one group exactly where they agree in every column without an aggregate.
/// Every row is in one group, and without a row there is a group only where there is no such
/// column, which is then the one empty group.
pub proof fn rows_that_agree_are_one_group(
    world: World,
    items: Seq<ProjectionItem>,
    rows: Seq<Scope>,
    i: int,
    j: int,
)
    requires
        keyed_rows(world, items, rows, 0, Seq::empty()) is Ok,
        0 <= i < rows.len(),
        0 <= j < rows.len(),
    ensures
        ({
            let keyed = keyed_rows(world, items, rows, 0, Seq::empty())->Ok_0;
            let all = sorted::<Keyed<Bindings>>(keyed);
            let groups = groups_or_one(items, keyed);
            &&& all.len() == rows.len()
            &&& laid_out(groups) == payloads(all)
            &&& forall|g: int|
                0 <= g < groups.len() ==> #[trigger] groups[g] == rows_at(all, g, all.len() as int)
            &&& home(all, i) == home(all, j) <==> agree(
                world,
                items,
                0,
                all[i].payload,
                all[j].payload,
            )
        }),
{
    rows_have_their_keys(world, items, rows, 0, Seq::empty());
    let keyed = keyed_rows(world, items, rows, 0, Seq::empty())->Ok_0;
    let all = sorted::<Keyed<Bindings>>(keyed);
    crate::order::sorted_length::<Keyed<Bindings>>(keyed);
    sorted_is_in_order::<Keyed<Bindings>>(keyed);
    every_row_is_in_its_group(all, all.len() as int);
    assert(payloads(all).take(all.len() as int) =~= payloads(all));
    assert(keys_in_order(all)) by {
        assert forall|a: int, b: int| 0 <= a < b < all.len() implies of_keys(
            (#[trigger] all[b]).key,
            (#[trigger] all[a]).key,
            0,
        ) != Relation::Below by {
            assert(!<Keyed<Bindings> as Ordered>::before(all[b], all[a]));
        }
    }
    if i <= j {
        one_home_means_one_key(all, i, j);
    } else {
        one_home_means_one_key(all, j, i);
        keys_chain(all[i].key, all[j].key, all[i].key, 0);
    }
    key_is_kept(world, items, rows, keyed, all[i]);
    key_is_kept(world, items, rows, keyed, all[j]);
    keys_tell_whether_rows_agree(
        world,
        items,
        0,
        all[i].payload,
        all[j].payload,
        Seq::empty(),
        Seq::empty(),
    );
}

proof fn key_is_kept(
    world: World,
    items: Seq<ProjectionItem>,
    rows: Seq<Scope>,
    keyed: Seq<KeyedModel<Scope>>,
    one: KeyedModel<Scope>,
)
    requires
        keyed.len() == rows.len(),
        forall|i: int| 0 <= i < rows.len() ==> is_keyed(world, items, rows[i], #[trigger] keyed[i]),
        sorted::<Keyed<Bindings>>(keyed).contains(one),
    ensures
        group_key(world, items, 0, one.payload, Seq::empty()) == Ok::<_, QueryErrorModel>(one.key),
{
    crate::order::sorted_contains::<Keyed<Bindings>>(keyed, one);
    let k = choose|k: int| 0 <= k < keyed.len() && keyed[k] == one;
    assert(is_keyed(world, items, rows[k], keyed[k]));
}

/// Over no rows there is exactly one group where every column is an aggregate, and none
/// otherwise.
pub proof fn no_rows_are_one_group_at_most(items: Seq<ProjectionItem>)
    ensures
        (forall|i: int| 0 <= i < items.len() ==> aggregates_of((#[trigger] items[i]).expression) > 0)
            ==> groups_or_one(items, Seq::empty()) == seq![Seq::<Scope>::empty()],
        !(forall|i: int| 0 <= i < items.len() ==> aggregates_of((#[trigger] items[i]).expression) > 0)
            ==> groups_or_one(items, Seq::empty()).len() == 0,
{
    every_column_aggregates(items, 0);
    crate::order::sorted_length::<Keyed<Bindings>>(Seq::empty());
}

proof fn every_column_aggregates(items: Seq<ProjectionItem>, at: int)
    requires
        0 <= at <= items.len(),
    ensures
        ungrouped(items, at) <==> forall|i: int|
            at <= i < items.len() ==> aggregates_of((#[trigger] items[i]).expression) > 0,
    decreases items.len() - at,
{
    if at < items.len() {
        every_column_aggregates(items, at + 1);
    }
}

// -- Columns of a group ------------------------------------------------------------

proof fn calls_are_folded(
    world: World,
    calls: Seq<Expression>,
    at: int,
    group: Seq<Scope>,
    before: Seq<QueryModel>,
)
    requires
        0 <= at <= calls.len(),
        before.len() == at,
    ensures
        folded_calls(world, calls, at, group, before) matches Ok(values) ==> values.len()
            == calls.len() && (forall|k: int| 0 <= k < at ==> values[k] == #[trigger] before[k])
            && forall|k: int|
            at <= k < calls.len() ==> folded_call(world, #[trigger] calls[k], group) == Ok::<
                QueryModel,
                QueryErrorModel,
            >(values[k]),
    decreases calls.len() - at,
{
    if at < calls.len() {
        if let Ok(value) = folded_call(world, calls[at], group) {
            let more = before.push(value);
            calls_are_folded(world, calls, at + 1, group, more);
            if let Ok(values) = folded_calls(world, calls, at, group, before) {
                assert(values[at] == more[at]);
                assert forall|k: int| 0 <= k < at implies values[k] == #[trigger] before[k] by {
                    assert(more[k] == before[k]);
                }
            }
        }
    }
}

proof fn calls_come_in_order(items: Seq<ProjectionItem>, i: int, count: int)
    requires
        0 <= i < count <= items.len(),
    ensures
        all_calls(items, count).len() >= all_calls(items, i).len() + calls_of(
            items[i].expression,
        ).len(),
        forall|k: int|
            0 <= k < calls_of(items[i].expression).len() ==> all_calls(items, count)[all_calls(
                items,
                i,
            ).len() + k] == #[trigger] calls_of(items[i].expression)[k],
    decreases count,
{
    if i < count - 1 {
        calls_come_in_order(items, i, count - 1);
        let less = all_calls(items, count - 1);
        assert forall|k: int| 0 <= k < calls_of(items[i].expression).len() implies all_calls(
            items,
            count,
        )[all_calls(items, i).len() + k] == #[trigger] calls_of(items[i].expression)[k] by {
            assert(all_calls(items, count)[all_calls(items, i).len() + k] == less[all_calls(
                items,
                i,
            ).len() + k]);
        }
    }
}

proof fn columns_hold_their_values(
    world: World,
    items: Seq<ProjectionItem>,
    at: int,
    scope: Scope,
    values: Seq<QueryModel>,
    before: Seq<QueryModel>,
)
    requires
        0 <= at <= items.len(),
        before.len() == at,
    ensures
        group_row(world, items, at, scope, values, before) matches Ok(row) ==> row.len()
            == items.len() && (forall|i: int| 0 <= i < at ==> row[i] == #[trigger] before[i])
            && forall|i: int|
            at <= i < items.len() ==> evaluated(
                world,
                (#[trigger] items[i]).expression,
                scope,
                Some((values, all_calls(items, i).len())),
            ) == Ok::<QueryModel, QueryErrorModel>(row[i]),
    decreases items.len() - at,
{
    if at < items.len() {
        if let Ok(value) = evaluated(
            world,
            items[at].expression,
            scope,
            Some((values, all_calls(items, at).len())),
        ) {
            let more = before.push(value);
            columns_hold_their_values(world, items, at + 1, scope, values, more);
            if let Ok(row) = group_row(world, items, at, scope, values, before) {
                assert(row[at] == more[at]);
                assert forall|i: int| 0 <= i < at implies row[i] == #[trigger] before[i] by {
                    assert(more[i] == before[i]);
                }
            }
        }
    }
}

/// A column that is an aggregate holds what that aggregate makes of the group.
#[verifier::rlimit(40)]
pub proof fn an_aggregate_column_folds_the_group(
    world: World,
    items: Seq<ProjectionItem>,
    group: Seq<Scope>,
    i: int,
    name: String,
    arguments: Vec<Expression>,
)
    requires
        0 <= i < items.len(),
        items[i].expression == (Expression::Call { name, arguments }),
        aggregate_name(lowered(name@)),
    ensures
        grouped_row(world, items, group) matches Ok(row) ==> folded(
            world,
            name@,
            arguments@,
            group,
        ) == Ok::<QueryModel, QueryErrorModel>(row.0[i]),
{
    let calls = all_calls(items, items.len() as int);
    let none = Seq::<QueryModel>::empty();
    if let Ok(values) = folded_calls(world, calls, 0, group, none) {
        calls_are_folded(world, calls, 0, group, none);
        calls_come_in_order(items, i, items.len() as int);
        let scope = if group.len() > 0 {
            group[0]
        } else {
            Map::empty()
        };
        columns_hold_their_values(world, items, 0, scope, values, none);
        let place = all_calls(items, i).len() as int;
        assert(calls_of(items[i].expression)[0] == items[i].expression);
        assert(calls[place + 0] == items[i].expression);
        assert(folded_call(world, calls[place], group) == Ok::<QueryModel, QueryErrorModel>(
            values[place],
        ));
        an_aggregate_is_its_value(world, items[i].expression, scope, values, place as nat);
    }
}

proof fn an_aggregate_is_its_value(
    world: World,
    call: Expression,
    scope: Scope,
    values: Seq<QueryModel>,
    at: nat,
)
    requires
        call matches Expression::Call { name, .. } && aggregate_name(lowered(name@)),
    ensures
        evaluated(world, call, scope, Some((values, at))) == Ok::<QueryModel, QueryErrorModel>(
            values[at as int],
        ),
{
}

} // verus!
