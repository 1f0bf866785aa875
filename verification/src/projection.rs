//! What a `WITH` or a `RETURN` makes of the rows.
//!
//! The columns are evaluated first, because a `WHERE` and an `ORDER BY` may both name a
//! column the projection introduced. After grouping only the projected columns are left:
//! several rows collapsed into one, so naming what one of them had bound would be naming an
//! arbitrary member of the group.

use crate::big::Relation;
use crate::bindings::Bindings;
use crate::cypher::aggregate_calls;
use crate::cypher::aggregates_of;
use crate::cypher::calls_are_counted;
use crate::cypher::calls_of;
use crate::cypher::column_names;
use crate::cypher::lower_text;
use crate::cypher::meaningless;
use crate::cypher::names_of_columns;
use crate::cypher::unbound;
use crate::cypher::Expression;
use crate::cypher::Projection;
use crate::cypher::ProjectionItem;
use crate::cypher::QueryError;
use crate::cypher::QueryErrorModel;
use crate::cypher::SortItem;
use crate::decimal::lowered;
use crate::evaluate::evaluated;
use crate::evaluate::Executor;
use crate::evaluate::FoldedValues;
use crate::evaluate::World;
use crate::evidence::SourceRange;
use crate::float::added;
use crate::float::divide_bits;
use crate::float::divided;
use crate::float::finite;
use crate::float::from_int;
use crate::float::integer_bits;
use crate::float::is_finite;
use crate::float::sum_bits;
use crate::matching::Scope;
use crate::number::digits_of;
use crate::number::show_unsigned;
use crate::order::in_sequence;
use crate::order::sort;
use crate::order::sorted;
use crate::property::FiniteF64;
use crate::single::integers_are_finite;
use crate::sorting::compare_keys;
use crate::sorting::of_keys;
use crate::sorting::seen;
use crate::sorting::Keyed;
use crate::sorting::KeyedModel;
use crate::sorting::SortPart;
use crate::text::joined;
use crate::text::same;
use crate::text::views;
use crate::text::views_push;
use crate::value::compared;
use crate::value::copy_value;
use crate::value::copy_values;
use crate::value::list_value;
use crate::value::of_lists;
use crate::value::QueryModel;
use crate::value::QueryValue;
use vstd::prelude::*;
use vstd::string::StringExecFns;

verus! {

// -- Aggregates --------------------------------------------------------------------

/// What an expression evaluates to in the rows of a group from `at` on, without nulls,
/// behind the values before them.
pub open spec fn present_values(
    world: World,
    argument: Expression,
    group: Seq<Scope>,
    at: int,
    before: Seq<QueryModel>,
) -> Result<Seq<QueryModel>, QueryErrorModel>
    decreases group.len() - at,
{
    if at < 0 || at >= group.len() {
        Ok(before)
    } else {
        match evaluated(world, argument, group[at], None) {
            Err(wrong) => Err(wrong),
            Ok(value) => present_values(
                world,
                argument,
                group,
                at + 1,
                if value == QueryModel::Null {
                    before
                } else {
                    before.push(value)
                },
            ),
        }
    }
}

/// The first of the smallest values, from `at` on.
pub open spec fn least(values: Seq<QueryModel>, at: int, best: QueryModel) -> QueryModel
    decreases values.len() - at,
{
    if at < 0 || at >= values.len() {
        best
    } else if compared(values[at], best) == Relation::Below {
        least(values, at + 1, values[at])
    } else {
        least(values, at + 1, best)
    }
}

/// The last of the largest values, from `at` on.
pub open spec fn greatest(values: Seq<QueryModel>, at: int, best: QueryModel) -> QueryModel
    decreases values.len() - at,
{
    if at < 0 || at >= values.len() {
        best
    } else if compared(values[at], best) == Relation::Below {
        greatest(values, at + 1, best)
    } else {
        greatest(values, at + 1, values[at])
    }
}

/// What is said of a value that is no number.
pub open spec fn not_a_number(name: Seq<char>, value: QueryModel) -> QueryErrorModel {
    meaningless(
        "`"@ + name + "` takes numbers, and one value was "@ + value.kind(),
        SourceRange::at_origin(),
    )
}

/// A sum of floats with one more, or `None` once it is not finite.
pub open spec fn more_float(sum: Option<u64>, bits: u64) -> Option<u64> {
    match sum {
        None => None,
        Some(total) => if finite(added(total, bits)) {
            Some(added(total, bits))
        } else {
            None
        },
    }
}

/// A float as a value, or null where it is not finite.
pub open spec fn float_or_null(sum: Option<u64>) -> QueryModel {
    match sum {
        Some(bits) => QueryModel::Float(bits),
        None => QueryModel::Null,
    }
}

/// The sum of the values from `at` on and of what was summed before: an integer where every
/// value was one and it fits, and a float otherwise.
pub open spec fn summed(
    name: Seq<char>,
    values: Seq<QueryModel>,
    at: int,
    integers: int,
    floats: Option<u64>,
    mixed: bool,
) -> Result<QueryModel, QueryErrorModel>
    decreases values.len() - at,
{
    if at < 0 || at >= values.len() {
        if !mixed && i64::MIN <= integers <= i64::MAX {
            Ok(QueryModel::Integer(integers as i64))
        } else {
            Ok(
                float_or_null(
                    match floats {
                        Some(bits) => more_float(Some(from_int(integers)), bits),
                        None => None,
                    },
                ),
            )
        }
    } else {
        match values[at] {
            QueryModel::Integer(number) => summed(
                name,
                values,
                at + 1,
                integers + number,
                floats,
                mixed,
            ),
            QueryModel::Float(bits) => summed(
                name,
                values,
                at + 1,
                integers,
                more_float(floats, bits),
                true,
            ),
            _ => Err(not_a_number(name, values[at])),
        }
    }
}

/// The sum of the values from `at` on and of what was summed before, each as a float.
pub open spec fn float_sum(
    name: Seq<char>,
    values: Seq<QueryModel>,
    at: int,
    sum: Option<u64>,
) -> Result<Option<u64>, QueryErrorModel>
    decreases values.len() - at,
{
    if at < 0 || at >= values.len() {
        Ok(sum)
    } else {
        match values[at] {
            QueryModel::Integer(number) => float_sum(
                name,
                values,
                at + 1,
                more_float(sum, from_int(number as int)),
            ),
            QueryModel::Float(bits) => float_sum(name, values, at + 1, more_float(sum, bits)),
            _ => Err(not_a_number(name, values[at])),
        }
    }
}

/// The mean of values. The mean of nothing is null.
pub open spec fn mean(name: Seq<char>, values: Seq<QueryModel>) -> Result<
    QueryModel,
    QueryErrorModel,
> {
    if values.len() == 0 {
        Ok(QueryModel::Null)
    } else {
        match float_sum(name, values, 0, Some(0)) {
            Err(wrong) => Err(wrong),
            Ok(None) => Ok(QueryModel::Null),
            Ok(Some(total)) => Ok(
                if finite(divided(total, values.len() as u64)) {
                    QueryModel::Float(divided(total, values.len() as u64))
                } else {
                    QueryModel::Null
                },
            ),
        }
    }
}

/// What an aggregate makes of values that are not null.
pub open spec fn folded_values(name: Seq<char>, values: Seq<QueryModel>) -> Result<
    QueryModel,
    QueryErrorModel,
> {
    let lower = lowered(name);
    if lower == "count"@ {
        Ok(QueryModel::Integer(values.len() as i64))
    } else if lower == "collect"@ {
        Ok(QueryModel::List(values))
    } else if lower == "min"@ {
        Ok(
            if values.len() == 0 {
                QueryModel::Null
            } else {
                least(values, 1, values[0])
            },
        )
    } else if lower == "max"@ {
        Ok(
            if values.len() == 0 {
                QueryModel::Null
            } else {
                greatest(values, 1, values[0])
            },
        )
    } else if lower == "sum"@ {
        summed(name, values, 0, 0, Some(0), false)
    } else {
        mean(name, values)
    }
}

/// Whether arguments are a star alone.
pub open spec fn star(arguments: Seq<Expression>) -> bool {
    arguments.len() == 1 && (arguments[0] matches Expression::Variable(only) && only@ == "*"@)
}

/// What an aggregate makes of the rows of a group.
pub open spec fn folded(
    world: World,
    name: Seq<char>,
    arguments: Seq<Expression>,
    group: Seq<Scope>,
) -> Result<QueryModel, QueryErrorModel> {
    let origin = SourceRange::at_origin();
    if star(arguments) {
        if lowered(name) == "count"@ {
            Ok(QueryModel::Integer(group.len() as i64))
        } else {
            Err(
                meaningless(
                    "`"@ + name + "(*)` is not defined; only `count(*)` is"@,
                    origin,
                ),
            )
        }
    } else if arguments.len() != 1 {
        Err(
            meaningless(
                "`"@ + name + "` takes one argument, and "@ + digits_of(arguments.len())
                    + " were given"@,
                origin,
            ),
        )
    } else {
        match present_values(world, arguments[0], group, 0, Seq::empty()) {
            Err(wrong) => Err(wrong),
            Ok(values) => folded_values(name, values),
        }
    }
}

/// What a call of an aggregate makes of the rows of a group.
pub open spec fn folded_call(world: World, call: Expression, group: Seq<Scope>) -> Result<
    QueryModel,
    QueryErrorModel,
> {
    match call {
        Expression::Call { name, arguments } => folded(world, name@, arguments@, group),
        _ => Ok(QueryModel::Null),
    }
}

/// What the calls from `at` on make of a group, behind the values before them.
pub open spec fn folded_calls(
    world: World,
    calls: Seq<Expression>,
    at: int,
    group: Seq<Scope>,
    before: Seq<QueryModel>,
) -> Result<Seq<QueryModel>, QueryErrorModel>
    decreases calls.len() - at,
{
    if at < 0 || at >= calls.len() {
        Ok(before)
    } else {
        match folded_call(world, calls[at], group) {
            Err(wrong) => Err(wrong),
            Ok(value) => folded_calls(world, calls, at + 1, group, before.push(value)),
        }
    }
}

fn no_number(name: &str, value: &QueryValue) -> (error: QueryError)
    ensures
        error@ == not_a_number(name@, value@),
{
    let mut message = joined("`", name);
    message.append("` takes numbers, and one value was ");
    message.append(value.kind_name());
    unbound(message.as_str())
}

fn add_float(sum: Option<u64>, bits: u64) -> (more: Option<u64>)
    requires
        sum matches Some(total) ==> finite(total),
        finite(bits),
    ensures
        more == more_float(sum, bits),
        more matches Some(total) ==> finite(total),
{
    match sum {
        None => None,
        Some(total) => {
            let next = sum_bits(total, bits);
            if is_finite(next) {
                Some(next)
            } else {
                None
            }
        }
    }
}

fn float_value(sum: Option<u64>) -> (value: QueryValue)
    requires
        sum matches Some(total) ==> finite(total),
    ensures
        value@ == float_or_null(sum),
{
    match sum {
        Some(bits) => match FiniteF64::new(bits) {
            Ok(number) => QueryValue::Float(number),
            Err(_) => QueryValue::Null,
        },
        None => QueryValue::Null,
    }
}

fn sum_values(name: &str, values: &Vec<QueryValue>) -> (made: Result<QueryValue, QueryError>)
    ensures
        match made {
            Ok(value) => summed(name@, views(values@), 0, 0, Some(0), false) matches Ok(model)
                && model == value@,
            Err(error) => summed(name@, views(values@), 0, 0, Some(0), false) matches Err(wrong)
                && wrong == error@,
        },
{
    let ghost models = views(values@);
    let mut integers: i128 = 0;
    let mut floats: Option<u64> = Some(0);
    let mut mixed = false;
    let mut at: usize = 0;
    while at < values.len()
        invariant
            at <= values@.len(),
            models == views(values@),
            -9223372036854775808 * at <= integers <= 9223372036854775808 * at,
            floats matches Some(total) ==> finite(total),
            summed(name@, models, 0, 0, Some(0), false) == summed(
                name@,
                models,
                at as int,
                integers as int,
                floats,
                mixed,
            ),
        decreases values@.len() - at,
    {
        assert(models[at as int] == values@[at as int]@);
        match &values[at] {
            QueryValue::Integer(number) => {
                integers = integers + *number as i128;
            }
            QueryValue::Float(number) => {
                floats = add_float(floats, number.get());
                mixed = true;
            }
            other => {
                return Err(no_number(name, other));
            }
        }
        at = at + 1;
    }
    if !mixed && integers >= i64::MIN as i128 && integers <= i64::MAX as i128 {
        Ok(QueryValue::Integer(integers as i64))
    } else {
        proof {
            integers_are_finite(integers as int);
        }
        match floats {
            Some(bits) => Ok(float_value(add_float(Some(integer_bits(integers)), bits))),
            None => Ok(QueryValue::Null),
        }
    }
}

fn mean_of(name: &str, values: &Vec<QueryValue>) -> (made: Result<QueryValue, QueryError>)
    ensures
        match made {
            Ok(value) => mean(name@, views(values@)) matches Ok(model) && model == value@,
            Err(error) => mean(name@, views(values@)) matches Err(wrong) && wrong == error@,
        },
{
    if values.len() == 0 {
        return Ok(QueryValue::Null);
    }
    let ghost models = views(values@);
    let mut sum: Option<u64> = Some(0);
    let mut at: usize = 0;
    while at < values.len()
        invariant
            at <= values@.len(),
            values@.len() > 0,
            models == views(values@),
            sum matches Some(total) ==> finite(total),
            float_sum(name@, models, 0, Some(0)) == float_sum(name@, models, at as int, sum),
        decreases values@.len() - at,
    {
        assert(models[at as int] == values@[at as int]@);
        match &values[at] {
            QueryValue::Integer(number) => {
                proof {
                    integers_are_finite(*number as int);
                }
                sum = add_float(sum, integer_bits(*number as i128));
            }
            QueryValue::Float(number) => {
                sum = add_float(sum, number.get());
            }
            other => {
                return Err(no_number(name, other));
            }
        }
        at = at + 1;
    }
    match sum {
        None => Ok(QueryValue::Null),
        Some(total) => {
            let bits = divide_bits(total, values.len() as u64);
            match FiniteF64::new(bits) {
                Ok(number) => Ok(QueryValue::Float(number)),
                Err(_) => Ok(QueryValue::Null),
            }
        }
    }
}

fn least_of(values: &Vec<QueryValue>) -> (value: QueryValue)
    requires
        values@.len() > 0,
    ensures
        value@ == least(views(values@), 1, views(values@)[0]),
{
    let ghost models = views(values@);
    let mut best: usize = 0;
    let mut at: usize = 1;
    while at < values.len()
        invariant
            1 <= at <= values@.len(),
            best < values@.len(),
            models == views(values@),
            least(models, 1, models[0]) == least(models, at as int, models[best as int]),
        decreases values@.len() - at,
    {
        assert(models[at as int] == values@[at as int]@);
        assert(models[best as int] == values@[best as int]@);
        match values[at].relation(&values[best]) {
            Relation::Below => {
                best = at;
            }
            _ => {}
        }
        at = at + 1;
    }
    copy_value(&values[best])
}

fn greatest_of(values: &Vec<QueryValue>) -> (value: QueryValue)
    requires
        values@.len() > 0,
    ensures
        value@ == greatest(views(values@), 1, views(values@)[0]),
{
    let ghost models = views(values@);
    let mut best: usize = 0;
    let mut at: usize = 1;
    while at < values.len()
        invariant
            1 <= at <= values@.len(),
            best < values@.len(),
            models == views(values@),
            greatest(models, 1, models[0]) == greatest(models, at as int, models[best as int]),
        decreases values@.len() - at,
    {
        assert(models[at as int] == values@[at as int]@);
        assert(models[best as int] == values@[best as int]@);
        match values[at].relation(&values[best]) {
            Relation::Below => {}
            _ => {
                best = at;
            }
        }
        at = at + 1;
    }
    copy_value(&values[best])
}

fn fold_values(name: &str, values: Vec<QueryValue>) -> (made: Result<QueryValue, QueryError>)
    ensures
        match made {
            Ok(value) => folded_values(name@, views(values@)) matches Ok(model) && model == value@,
            Err(error) => folded_values(name@, views(values@)) matches Err(wrong) && wrong
                == error@,
        },
{
    let lower = lower_text(name);
    let word = lower.as_str();
    if same(word, "count") {
        Ok(QueryValue::Integer(values.len() as i64))
    } else if same(word, "collect") {
        Ok(list_value(values))
    } else if same(word, "min") {
        if values.len() == 0 {
            Ok(QueryValue::Null)
        } else {
            Ok(least_of(&values))
        }
    } else if same(word, "max") {
        if values.len() == 0 {
            Ok(QueryValue::Null)
        } else {
            Ok(greatest_of(&values))
        }
    } else if same(word, "sum") {
        sum_values(name, &values)
    } else {
        mean_of(name, &values)
    }
}

fn is_star(arguments: &Vec<Expression>) -> (answer: bool)
    ensures
        answer == star(arguments@),
{
    if arguments.len() != 1 {
        return false;
    }
    match &arguments[0] {
        Expression::Variable(only) => same(only.as_str(), "*"),
        _ => false,
    }
}

impl<'a> Executor<'a> {
    fn gather(&self, argument: &Expression, group: &Vec<&Bindings>) -> (made: Result<
        Vec<QueryValue>,
        QueryError,
    >)
        ensures
            match made {
                Ok(values) => present_values(
                    self@,
                    *argument,
                    crate::order::shown(group@),
                    0,
                    Seq::empty(),
                ) matches Ok(model) && model == views(values@),
                Err(error) => present_values(
                    self@,
                    *argument,
                    crate::order::shown(group@),
                    0,
                    Seq::empty(),
                ) matches Err(wrong) && wrong == error@,
            },
    {
        let ghost world = self@;
        let ghost models = crate::order::shown(group@);
        let mut values: Vec<QueryValue> = Vec::new();
        assert(views(values@) =~= Seq::<QueryModel>::empty());
        let mut at: usize = 0;
        while at < group.len()
            invariant
                at <= group@.len(),
                world == self@,
                models == crate::order::shown(group@),
                present_values(world, *argument, models, 0, Seq::empty()) == present_values(
                    world,
                    *argument,
                    models,
                    at as int,
                    views(values@),
                ),
            decreases group@.len() - at,
        {
            assert(models[at as int] == group@[at as int]@);
            match self.evaluate(argument, group[at]) {
                Err(error) => {
                    return Err(error);
                }
                Ok(value) => {
                    if !value.is_null() {
                        proof {
                            views_push(values@, value);
                        }
                        values.push(value);
                    }
                }
            }
            at = at + 1;
        }
        Ok(values)
    }

    fn fold(&self, name: &str, arguments: &Vec<Expression>, group: &Vec<&Bindings>) -> (made: Result<
        QueryValue,
        QueryError,
    >)
        ensures
            match made {
                Ok(value) => folded(
                    self@,
                    name@,
                    arguments@,
                    crate::order::shown(group@),
                ) matches Ok(model) && model == value@,
                Err(error) => folded(
                    self@,
                    name@,
                    arguments@,
                    crate::order::shown(group@),
                ) matches Err(wrong) && wrong == error@,
            },
    {
        if is_star(arguments) {
            let lower = lower_text(name);
            if same(lower.as_str(), "count") {
                return Ok(QueryValue::Integer(group.len() as i64));
            }
            let mut message = joined("`", name);
            message.append("(*)` is not defined; only `count(*)` is");
            return Err(unbound(message.as_str()));
        }
        if arguments.len() != 1 {
            let mut message = joined("`", name);
            message.append("` takes one argument, and ");
            message.append(show_unsigned(arguments.len() as u64).as_str());
            message.append(" were given");
            return Err(unbound(message.as_str()));
        }
        match self.gather(&arguments[0], group) {
            Err(error) => Err(error),
            Ok(values) => fold_values(name, values),
        }
    }

    fn fold_calls(&self, calls: &Vec<&Expression>, group: &Vec<&Bindings>) -> (made: Result<
        Vec<QueryValue>,
        QueryError,
    >)
        ensures
            match made {
                Ok(values) => folded_calls(
                    self@,
                    plain(calls@),
                    0,
                    crate::order::shown(group@),
                    Seq::empty(),
                ) matches Ok(model) && model == views(values@) && values@.len() == calls@.len(),
                Err(error) => folded_calls(
                    self@,
                    plain(calls@),
                    0,
                    crate::order::shown(group@),
                    Seq::empty(),
                ) matches Err(wrong) && wrong == error@,
            },
    {
        let ghost world = self@;
        let ghost models = plain(calls@);
        let ghost scopes = crate::order::shown(group@);
        let mut values: Vec<QueryValue> = Vec::new();
        assert(views(values@) =~= Seq::<QueryModel>::empty());
        let mut at: usize = 0;
        while at < calls.len()
            invariant
                at <= calls@.len(),
                values@.len() == at,
                world == self@,
                models == plain(calls@),
                scopes == crate::order::shown(group@),
                folded_calls(world, models, 0, scopes, Seq::empty()) == folded_calls(
                    world,
                    models,
                    at as int,
                    scopes,
                    views(values@),
                ),
            decreases calls@.len() - at,
        {
            assert(models[at as int] == *calls@[at as int]);
            let value = match calls[at] {
                Expression::Call { name, arguments } => match self.fold(
                    name.as_str(),
                    arguments,
                    group,
                ) {
                    Err(error) => return Err(error),
                    Ok(value) => value,
                },
                _ => QueryValue::Null,
            };
            proof {
                views_push(values@, value);
            }
            values.push(value);
            at = at + 1;
        }
        Ok(values)
    }
}

/// Borrowed expressions as such.
pub open spec fn plain(items: Seq<&Expression>) -> Seq<Expression> {
    Seq::new(items.len(), |i: int| *items[i])
}

// -- Rows --------------------------------------------------------------------------

/// A projected row, and what a later `WHERE` or `ORDER BY` sees.
pub type ProjectedRow = (Seq<QueryModel>, Scope);

/// A projected row, and what a later `WHERE` or `ORDER BY` sees.
pub(crate) struct Projected {
    pub(crate) row: Vec<QueryValue>,
    pub(crate) scope: Bindings,
}

impl View for Projected {
    type V = ProjectedRow;

    open(crate) spec fn view(&self) -> ProjectedRow {
        (views(self.row@), self.scope@)
    }
}

/// A scope with the first `count` columns of a row.
pub open spec fn with_columns(
    scope: Scope,
    names: Seq<Seq<char>>,
    row: Seq<QueryModel>,
    count: int,
) -> Scope
    decreases count,
{
    if count <= 0 {
        scope
    } else {
        with_columns(scope, names, row, count - 1).insert(names[count - 1], row[count - 1])
    }
}

/// What the columns from `at` on hold, behind those before them.
pub open spec fn row_from(
    world: World,
    items: Seq<ProjectionItem>,
    at: int,
    scope: Scope,
    before: Seq<QueryModel>,
) -> Result<Seq<QueryModel>, QueryErrorModel>
    decreases items.len() - at,
{
    if at < 0 || at >= items.len() {
        Ok(before)
    } else {
        match evaluated(world, items[at].expression, scope, None) {
            Err(wrong) => Err(wrong),
            Ok(value) => row_from(world, items, at + 1, scope, before.push(value)),
        }
    }
}

/// The rows from `at` on, projected without grouping, behind those before them.
pub open spec fn plain_rows(
    world: World,
    items: Seq<ProjectionItem>,
    rows: Seq<Scope>,
    at: int,
    before: Seq<ProjectedRow>,
) -> Result<Seq<ProjectedRow>, QueryErrorModel>
    decreases rows.len() - at,
{
    if at < 0 || at >= rows.len() {
        Ok(before)
    } else {
        match row_from(world, items, 0, rows[at], Seq::empty()) {
            Err(wrong) => Err(wrong),
            Ok(row) => plain_rows(
                world,
                items,
                rows,
                at + 1,
                before.push(
                    (row, with_columns(rows[at], names_of_columns(items), row, row.len() as int)),
                ),
            ),
        }
    }
}

// -- Groups ------------------------------------------------------------------------

/// The aggregates of the first `count` columns, in order.
pub open spec fn all_calls(items: Seq<ProjectionItem>, count: int) -> Seq<Expression>
    decreases count,
{
    if count <= 0 {
        Seq::empty()
    } else {
        all_calls(items, count - 1) + calls_of(items[count - 1].expression)
    }
}

/// The key a row is grouped by: what the columns without an aggregate hold, from `at` on.
pub open spec fn group_key(
    world: World,
    items: Seq<ProjectionItem>,
    at: int,
    scope: Scope,
    before: Seq<(bool, QueryModel)>,
) -> Result<Seq<(bool, QueryModel)>, QueryErrorModel>
    decreases items.len() - at,
{
    if at < 0 || at >= items.len() {
        Ok(before)
    } else if aggregates_of(items[at].expression) > 0 {
        group_key(world, items, at + 1, scope, before)
    } else {
        match evaluated(world, items[at].expression, scope, None) {
            Err(wrong) => Err(wrong),
            Ok(value) => group_key(world, items, at + 1, scope, before.push((false, value))),
        }
    }
}

/// Whether no column is without an aggregate, from `at` on.
pub open spec fn ungrouped(items: Seq<ProjectionItem>, at: int) -> bool
    decreases items.len() - at,
{
    if at < 0 || at >= items.len() {
        true
    } else {
        aggregates_of(items[at].expression) > 0 && ungrouped(items, at + 1)
    }
}

/// The rows from `at` on with the keys they are grouped by, behind those before them.
pub open spec fn keyed_rows(
    world: World,
    items: Seq<ProjectionItem>,
    rows: Seq<Scope>,
    at: int,
    before: Seq<KeyedModel<Scope>>,
) -> Result<Seq<KeyedModel<Scope>>, QueryErrorModel>
    decreases rows.len() - at,
{
    if at < 0 || at >= rows.len() {
        Ok(before)
    } else {
        match group_key(world, items, 0, rows[at], Seq::empty()) {
            Err(wrong) => Err(wrong),
            Ok(key) => keyed_rows(
                world,
                items,
                rows,
                at + 1,
                before.push(KeyedModel { key, payload: rows[at] }),
            ),
        }
    }
}

/// The groups of the first `count` rows, which stand in order of their keys.
pub open spec fn groups_of(keyed: Seq<KeyedModel<Scope>>, count: int) -> Seq<Seq<Scope>>
    decreases count,
{
    if count <= 0 {
        Seq::empty()
    } else {
        let before = groups_of(keyed, count - 1);
        let row = keyed[count - 1];
        if count > 1 && before.len() > 0 && of_keys(keyed[count - 2].key, row.key, 0)
            == Relation::Same {
            before.drop_last().push(before.last().push(row.payload))
        } else {
            before.push(seq![row.payload])
        }
    }
}

/// What the columns from `at` on hold of a group, behind those before them.
pub open spec fn group_row(
    world: World,
    items: Seq<ProjectionItem>,
    at: int,
    scope: Scope,
    values: Seq<QueryModel>,
    before: Seq<QueryModel>,
) -> Result<Seq<QueryModel>, QueryErrorModel>
    decreases items.len() - at,
{
    if at < 0 || at >= items.len() {
        Ok(before)
    } else {
        match evaluated(
            world,
            items[at].expression,
            scope,
            Some((values, all_calls(items, at).len())),
        ) {
            Err(wrong) => Err(wrong),
            Ok(value) => group_row(world, items, at + 1, scope, values, before.push(value)),
        }
    }
}

/// The row of a group. A column without an aggregate is the same in every row of the group,
/// so the first row answers for all of them.
pub open spec fn grouped_row(world: World, items: Seq<ProjectionItem>, group: Seq<Scope>) -> Result<
    ProjectedRow,
    QueryErrorModel,
> {
    match folded_calls(world, all_calls(items, items.len() as int), 0, group, Seq::empty()) {
        Err(wrong) => Err(wrong),
        Ok(values) => {
            let scope = if group.len() > 0 {
                group[0]
            } else {
                Map::empty()
            };
            match group_row(world, items, 0, scope, values, Seq::empty()) {
                Err(wrong) => Err(wrong),
                Ok(row) => Ok(
                    (
                        row,
                        with_columns(Map::empty(), names_of_columns(items), row, row.len() as int),
                    ),
                ),
            }
        },
    }
}

/// The rows of the groups from `at` on, behind those before them.
pub open spec fn grouped_rows(
    world: World,
    items: Seq<ProjectionItem>,
    groups: Seq<Seq<Scope>>,
    at: int,
    before: Seq<ProjectedRow>,
) -> Result<Seq<ProjectedRow>, QueryErrorModel>
    decreases groups.len() - at,
{
    if at < 0 || at >= groups.len() {
        Ok(before)
    } else {
        match grouped_row(world, items, groups[at]) {
            Err(wrong) => Err(wrong),
            Ok(row) => grouped_rows(world, items, groups, at + 1, before.push(row)),
        }
    }
}

/// The groups of rows. With no grouping key there is exactly one group, even over no rows at
/// all.
pub open spec fn groups_or_one(
    items: Seq<ProjectionItem>,
    keyed: Seq<KeyedModel<Scope>>,
) -> Seq<Seq<Scope>> {
    if keyed.len() == 0 && ungrouped(items, 0) {
        seq![Seq::empty()]
    } else {
        let ordered = sorted::<Keyed<Bindings>>(keyed);
        groups_of(ordered, ordered.len() as int)
    }
}

/// The rows of a projection that aggregates.
pub open spec fn aggregated(world: World, items: Seq<ProjectionItem>, rows: Seq<Scope>) -> Result<
    Seq<ProjectedRow>,
    QueryErrorModel,
> {
    match keyed_rows(world, items, rows, 0, Seq::empty()) {
        Err(wrong) => Err(wrong),
        Ok(keyed) => grouped_rows(world, items, groups_or_one(items, keyed), 0, Seq::empty()),
    }
}

// -- The projection ----------------------------------------------------------------

/// The rows from `at` on that meet a predicate, behind those before them.
pub open spec fn passing(
    world: World,
    predicate: Expression,
    rows: Seq<ProjectedRow>,
    at: int,
    before: Seq<ProjectedRow>,
) -> Result<Seq<ProjectedRow>, QueryErrorModel>
    decreases rows.len() - at,
{
    if at < 0 || at >= rows.len() {
        Ok(before)
    } else {
        match evaluated(world, predicate, rows[at].1, None) {
            Err(wrong) => Err(wrong),
            Ok(value) => passing(
                world,
                predicate,
                rows,
                at + 1,
                if value.truthy() {
                    before.push(rows[at])
                } else {
                    before
                },
            ),
        }
    }
}

/// The values of projected rows.
pub open spec fn row_values(rows: Seq<ProjectedRow>) -> Seq<Seq<QueryModel>> {
    Seq::new(rows.len(), |i: int| rows[i].0)
}

/// The rows from `at` on that are not there yet, behind those before them.
pub open spec fn distinct_rows(rows: Seq<ProjectedRow>, at: int, before: Seq<ProjectedRow>) -> Seq<
    ProjectedRow,
>
    decreases rows.len() - at,
{
    if at < 0 || at >= rows.len() {
        before
    } else if seen(row_values(before), before.len() as int, rows[at].0) {
        distinct_rows(rows, at + 1, before)
    } else {
        distinct_rows(rows, at + 1, before.push(rows[at]))
    }
}

/// The key a row is sorted by, from `at` on.
pub open spec fn sort_key(
    world: World,
    order: Seq<SortItem>,
    at: int,
    scope: Scope,
    before: Seq<(bool, QueryModel)>,
) -> Result<Seq<(bool, QueryModel)>, QueryErrorModel>
    decreases order.len() - at,
{
    if at < 0 || at >= order.len() {
        Ok(before)
    } else {
        match evaluated(world, order[at].expression, scope, None) {
            Err(wrong) => Err(wrong),
            Ok(value) => sort_key(
                world,
                order,
                at + 1,
                scope,
                before.push((order[at].descending, value)),
            ),
        }
    }
}

/// The rows from `at` on with the keys they are sorted by, behind those before them.
pub open spec fn sortable_rows(
    world: World,
    order: Seq<SortItem>,
    rows: Seq<ProjectedRow>,
    at: int,
    before: Seq<KeyedModel<ProjectedRow>>,
) -> Result<Seq<KeyedModel<ProjectedRow>>, QueryErrorModel>
    decreases rows.len() - at,
{
    if at < 0 || at >= rows.len() {
        Ok(before)
    } else {
        match sort_key(world, order, 0, rows[at].1, Seq::empty()) {
            Err(wrong) => Err(wrong),
            Ok(key) => sortable_rows(
                world,
                order,
                rows,
                at + 1,
                before.push(KeyedModel { key, payload: rows[at] }),
            ),
        }
    }
}

/// What has keys, without them.
pub open spec fn payloads<P>(keyed: Seq<KeyedModel<P>>) -> Seq<P> {
    Seq::new(keyed.len(), |i: int| keyed[i].payload)
}

/// How many rows a `SKIP` or a `LIMIT` names.
pub open spec fn row_count_of(world: World, expression: Expression, what: Seq<char>) -> Result<
    nat,
    QueryErrorModel,
> {
    let origin = SourceRange::at_origin();
    match evaluated(world, expression, Map::empty(), None) {
        Err(wrong) => Err(wrong),
        Ok(QueryModel::Integer(number)) => if number < 0 {
            Err(meaningless(what + " must not be negative"@, origin))
        } else if number > usize::MAX {
            Err(meaningless(what + " is too large"@, origin))
        } else {
            Ok(number as nat)
        },
        Ok(_) => Err(meaningless(what + " must be an integer"@, origin)),
    }
}

/// The rows that a predicate, if there is one, lets pass.
pub open spec fn filtered(world: World, projection: Projection, rows: Seq<ProjectedRow>) -> Result<
    Seq<ProjectedRow>,
    QueryErrorModel,
> {
    match projection.predicate {
        None => Ok(rows),
        Some(predicate) => passing(world, predicate, rows, 0, Seq::empty()),
    }
}

/// The rows in the order that was asked for, if one was.
pub open spec fn ordered(world: World, projection: Projection, rows: Seq<ProjectedRow>) -> Result<
    Seq<ProjectedRow>,
    QueryErrorModel,
> {
    if projection.order_by@.len() == 0 {
        Ok(rows)
    } else {
        match sortable_rows(world, projection.order_by@, rows, 0, Seq::empty()) {
            Err(wrong) => Err(wrong),
            Ok(keyed) => Ok(payloads(sorted::<Keyed<Projected>>(keyed))),
        }
    }
}

/// The rows without those that are skipped.
pub open spec fn skipped(world: World, projection: Projection, rows: Seq<Seq<QueryModel>>) -> Result<
    Seq<Seq<QueryModel>>,
    QueryErrorModel,
> {
    match projection.skip {
        None => Ok(rows),
        Some(expression) => match row_count_of(world, expression, "SKIP"@) {
            Err(wrong) => Err(wrong),
            Ok(count) => Ok(
                rows.skip(
                    if count > rows.len() {
                        rows.len() as int
                    } else {
                        count as int
                    },
                ),
            ),
        },
    }
}

/// The rows up to the limit.
pub open spec fn limited(world: World, projection: Projection, rows: Seq<Seq<QueryModel>>) -> Result<
    Seq<Seq<QueryModel>>,
    QueryErrorModel,
> {
    match projection.limit {
        None => Ok(rows),
        Some(expression) => match row_count_of(world, expression, "LIMIT"@) {
            Err(wrong) => Err(wrong),
            Ok(count) => Ok(
                rows.take(
                    if count > rows.len() {
                        rows.len() as int
                    } else {
                        count as int
                    },
                ),
            ),
        },
    }
}

/// The rows before any are removed or sorted.
pub open spec fn projected_rows(world: World, projection: Projection, rows: Seq<Scope>) -> Result<
    Seq<ProjectedRow>,
    QueryErrorModel,
> {
    let items = projection.items@;
    if all_calls(items, items.len() as int).len() > 0 {
        aggregated(world, items, rows)
    } else {
        plain_rows(world, items, rows, 0, Seq::empty())
    }
}

/// The rows that are left, in order, before any are cut off.
pub open spec fn arranged(world: World, projection: Projection, rows: Seq<Scope>) -> Result<
    Seq<ProjectedRow>,
    QueryErrorModel,
> {
    match projected_rows(world, projection, rows) {
        Err(wrong) => Err(wrong),
        Ok(first) => match filtered(world, projection, first) {
            Err(wrong) => Err(wrong),
            Ok(second) => ordered(
                world,
                projection,
                if projection.distinct {
                    distinct_rows(second, 0, Seq::empty())
                } else {
                    second
                },
            ),
        },
    }
}

/// The rows that a `SKIP` and a `LIMIT` leave.
pub open spec fn paged(world: World, projection: Projection, rows: Seq<Seq<QueryModel>>) -> Result<
    Seq<Seq<QueryModel>>,
    QueryErrorModel,
> {
    match skipped(world, projection, rows) {
        Err(wrong) => Err(wrong),
        Ok(rest) => limited(world, projection, rest),
    }
}

/// What a projection makes of the rows.
pub open spec fn projected(world: World, projection: Projection, rows: Seq<Scope>) -> Result<
    Seq<Seq<QueryModel>>,
    QueryErrorModel,
> {
    match arranged(world, projection, rows) {
        Err(wrong) => Err(wrong),
        Ok(found) => paged(world, projection, row_values(found)),
    }
}

// -- Projecting --------------------------------------------------------------------

fn add_columns(scope: &mut Bindings, names: &Vec<String>, row: &Vec<QueryValue>)
    requires
        row@.len() <= names@.len(),
    ensures
        final(scope)@ == with_columns(
            old(scope)@,
            views(names@),
            views(row@),
            row@.len() as int,
        ),
{
    let ghost first = scope@;
    let mut at: usize = 0;
    while at < row.len()
        invariant
            at <= row@.len() <= names@.len(),
            first == old(scope)@,
            scope@ == with_columns(first, views(names@), views(row@), at as int),
        decreases row@.len() - at,
    {
        assert(views(names@)[at as int] == names@[at as int]@);
        assert(views(row@)[at as int] == row@[at as int]@);
        scope.insert(names[at].clone(), copy_value(&row[at]));
        at = at + 1;
    }
}

proof fn calls_fit(items: Seq<ProjectionItem>, at: int, count: int)
    requires
        0 <= at < count <= items.len(),
    ensures
        all_calls(items, at).len() + aggregates_of(items[at].expression) <= all_calls(
            items,
            count,
        ).len(),
    decreases count,
{
    calls_are_counted(items[at].expression);
    if at < count - 1 {
        calls_fit(items, at, count - 1);
    }
}

fn collect_calls<'b>(items: &'b Vec<ProjectionItem>) -> (calls: Vec<&'b Expression>)
    ensures
        plain(calls@) == all_calls(items@, items@.len() as int),
{
    let mut calls: Vec<&'b Expression> = Vec::new();
    assert(plain(calls@) =~= Seq::<Expression>::empty());
    let mut at: usize = 0;
    while at < items.len()
        invariant
            at <= items@.len(),
            plain(calls@) == all_calls(items@, at as int),
        decreases items@.len() - at,
    {
        let ghost before = calls@;
        let mut more = aggregate_calls(&items[at].expression);
        let ghost found = more@;
        calls.append(&mut more);
        assert(plain(calls@) =~= plain(before) + calls_of(items@[at as int].expression));
        at = at + 1;
    }
    calls
}

fn is_ungrouped(items: &Vec<ProjectionItem>) -> (answer: bool)
    ensures
        answer == ungrouped(items@, 0),
{
    let mut at: usize = 0;
    while at < items.len()
        invariant
            at <= items@.len(),
            ungrouped(items@, 0) == ungrouped(items@, at as int),
        decreases items@.len() - at,
    {
        proof {
            calls_are_counted(items@[at as int].expression);
        }
        if aggregate_calls(&items[at].expression).len() == 0 {
            return false;
        }
        at = at + 1;
    }
    true
}

/// The models of groups.
spec fn group_models(groups: Seq<Vec<&Bindings>>) -> Seq<Seq<Scope>> {
    Seq::new(groups.len(), |i: int| crate::order::shown(groups[i]@))
}

fn split_groups<'b>(keyed: &'b Vec<Keyed<Bindings>>) -> (groups: Vec<Vec<&'b Bindings>>)
    ensures
        group_models(groups@) == groups_of(views(keyed@), keyed@.len() as int),
{
    let ghost models = views(keyed@);
    let mut groups: Vec<Vec<&'b Bindings>> = Vec::new();
    assert(group_models(groups@) =~= Seq::<Seq<Scope>>::empty());
    let mut at: usize = 0;
    while at < keyed.len()
        invariant
            at <= keyed@.len(),
            models == views(keyed@),
            group_models(groups@) == groups_of(models, at as int),
        decreases keyed@.len() - at,
    {
        assert(models[at as int] == keyed@[at as int]@);
        let ghost before = group_models(groups@);
        let row = &keyed[at];
        let mut joins = false;
        if at > 0 && groups.len() > 0 {
            assert(models[at - 1] == keyed@[at - 1]@);
            match compare_keys(&keyed[at - 1].key, &row.key) {
                Relation::Same => {
                    joins = true;
                }
                _ => {}
            }
        }
        if joins {
            let ghost all = groups@;
            match groups.pop() {
                Some(mut last) => {
                    let ghost earlier = last@;
                    assert(crate::order::shown(earlier) == before.last());
                    last.push(&row.payload);
                    assert(crate::order::shown(last@) =~= before.last().push(row.payload@));
                    groups.push(last);
                    assert(group_models(groups@) =~= before.drop_last().push(
                        before.last().push(row.payload@),
                    ));
                }
                None => {}
            }
        } else {
            let mut one: Vec<&'b Bindings> = Vec::new();
            one.push(&row.payload);
            assert(crate::order::shown(one@) =~= seq![row.payload@]);
            groups.push(one);
            assert(group_models(groups@) =~= before.push(seq![row.payload@]));
        }
        at = at + 1;
    }
    groups
}

fn row_is_seen(rows: &Vec<Projected>, row: &Vec<QueryValue>) -> (answer: bool)
    ensures
        answer == seen(row_values(views(rows@)), rows@.len() as int, views(row@)),
{
    let ghost models = row_values(views(rows@));
    let mut at: usize = rows.len();
    while at > 0
        invariant
            at <= rows@.len(),
            models == row_values(views(rows@)),
            seen(models, rows@.len() as int, views(row@)) == seen(models, at as int, views(row@)),
        decreases at,
    {
        assert(models[at - 1] == views(rows@[at - 1].row@));
        match compare_rows(&rows[at - 1].row, row) {
            Relation::Same => {
                return true;
            }
            _ => {}
        }
        at = at - 1;
    }
    false
}

/// How two rows compare.
pub(crate) fn compare_rows(left: &Vec<QueryValue>, right: &Vec<QueryValue>) -> (relation: Relation)
    ensures
        relation == of_lists(views(left@), views(right@), 0),
{
    let ghost a = views(left@);
    let ghost b = views(right@);
    let mut at: usize = 0;
    while at < left.len() && at < right.len()
        invariant
            at <= left@.len(),
            at <= right@.len(),
            a == views(left@),
            b == views(right@),
            of_lists(a, b, 0) == of_lists(a, b, at as int),
        decreases left@.len() - at,
    {
        assert(a[at as int] == left@[at as int]@ && b[at as int] == right@[at as int]@);
        let relation = left[at].relation(&right[at]);
        match relation {
            Relation::Same => {}
            _ => {
                return relation;
            }
        }
        at = at + 1;
    }
    if left.len() < right.len() {
        Relation::Below
    } else if left.len() > right.len() {
        Relation::Above
    } else {
        Relation::Same
    }
}

fn keep_distinct(rows: Vec<Projected>) -> (kept: Vec<Projected>)
    ensures
        views(kept@) == distinct_rows(views(rows@), 0, Seq::empty()),
{
    let ghost models = views(rows@);
    let mut kept: Vec<Projected> = Vec::new();
    assert(views(kept@) =~= Seq::<ProjectedRow>::empty());
    let mut at: usize = 0;
    while at < rows.len()
        invariant
            at <= rows@.len(),
            models == views(rows@),
            distinct_rows(models, 0, Seq::empty()) == distinct_rows(
                models,
                at as int,
                views(kept@),
            ),
        decreases rows@.len() - at,
    {
        assert(models[at as int] == rows@[at as int]@);
        if !row_is_seen(&kept, &rows[at].row) {
            let copy = Projected {
                row: copy_values(&rows[at].row),
                scope: rows[at].scope.clone(),
            };
            proof {
                views_push(kept@, copy);
            }
            kept.push(copy);
        }
        at = at + 1;
    }
    kept
}

impl<'a> Executor<'a> {
    fn plain_row(&self, items: &Vec<ProjectionItem>, scope: &Bindings) -> (made: Result<
        Vec<QueryValue>,
        QueryError,
    >)
        ensures
            match made {
                Ok(row) => row_from(self@, items@, 0, scope@, Seq::empty()) matches Ok(model)
                    && model == views(row@) && row@.len() == items@.len(),
                Err(error) => row_from(self@, items@, 0, scope@, Seq::empty()) matches Err(wrong)
                    && wrong == error@,
            },
    {
        let ghost world = self@;
        let mut row: Vec<QueryValue> = Vec::new();
        assert(views(row@) =~= Seq::<QueryModel>::empty());
        let mut at: usize = 0;
        while at < items.len()
            invariant
                at <= items@.len(),
                row@.len() == at,
                world == self@,
                row_from(world, items@, 0, scope@, Seq::empty()) == row_from(
                    world,
                    items@,
                    at as int,
                    scope@,
                    views(row@),
                ),
            decreases items@.len() - at,
        {
            match self.evaluate(&items[at].expression, scope) {
                Err(error) => {
                    return Err(error);
                }
                Ok(value) => {
                    proof {
                        views_push(row@, value);
                    }
                    row.push(value);
                }
            }
            at = at + 1;
        }
        Ok(row)
    }

    fn project_plain(&self, projection: &Projection, names: &Vec<String>, rows: &Vec<Bindings>) -> (made:
        Result<Vec<Projected>, QueryError>)
        requires
            views(names@) == names_of_columns(projection.items@),
        ensures
            match made {
                Ok(found) => plain_rows(
                    self@,
                    projection.items@,
                    views(rows@),
                    0,
                    Seq::empty(),
                ) matches Ok(model) && model == views(found@),
                Err(error) => plain_rows(
                    self@,
                    projection.items@,
                    views(rows@),
                    0,
                    Seq::empty(),
                ) matches Err(wrong) && wrong == error@,
            },
    {
        let ghost world = self@;
        let ghost items = projection.items@;
        let ghost models = views(rows@);
        let mut found: Vec<Projected> = Vec::new();
        assert(views(found@) =~= Seq::<ProjectedRow>::empty());
        let mut at: usize = 0;
        while at < rows.len()
            invariant
                at <= rows@.len(),
                world == self@,
                items == projection.items@,
                models == views(rows@),
                views(names@) == names_of_columns(items),
                plain_rows(world, items, models, 0, Seq::empty()) == plain_rows(
                    world,
                    items,
                    models,
                    at as int,
                    views(found@),
                ),
            decreases rows@.len() - at,
        {
            assert(models[at as int] == rows@[at as int]@);
            let row = match self.plain_row(&projection.items, &rows[at]) {
                Err(error) => return Err(error),
                Ok(row) => row,
            };
            let mut scope = rows[at].clone();
            assert(views(names@).len() == names@.len());
            add_columns(&mut scope, names, &row);
            let one = Projected { row, scope };
            proof {
                views_push(found@, one);
            }
            found.push(one);
            at = at + 1;
        }
        Ok(found)
    }

    fn key_of_row(&self, items: &Vec<ProjectionItem>, scope: &Bindings) -> (made: Result<
        Vec<SortPart>,
        QueryError,
    >)
        ensures
            match made {
                Ok(key) => group_key(self@, items@, 0, scope@, Seq::empty()) matches Ok(model)
                    && model == views(key@),
                Err(error) => group_key(self@, items@, 0, scope@, Seq::empty()) matches Err(wrong)
                    && wrong == error@,
            },
    {
        let ghost world = self@;
        let mut key: Vec<SortPart> = Vec::new();
        assert(views(key@) =~= Seq::<(bool, QueryModel)>::empty());
        let mut at: usize = 0;
        while at < items.len()
            invariant
                at <= items@.len(),
                world == self@,
                group_key(world, items@, 0, scope@, Seq::empty()) == group_key(
                    world,
                    items@,
                    at as int,
                    scope@,
                    views(key@),
                ),
            decreases items@.len() - at,
        {
            proof {
                calls_are_counted(items@[at as int].expression);
            }
            if aggregate_calls(&items[at].expression).len() == 0 {
                match self.evaluate(&items[at].expression, scope) {
                    Err(error) => {
                        return Err(error);
                    }
                    Ok(value) => {
                        let part = SortPart { descending: false, value };
                        proof {
                            views_push(key@, part);
                        }
                        key.push(part);
                    }
                }
            }
            at = at + 1;
        }
        Ok(key)
    }

    fn key_rows(&self, items: &Vec<ProjectionItem>, rows: &Vec<Bindings>) -> (made: Result<
        Vec<Keyed<Bindings>>,
        QueryError,
    >)
        ensures
            match made {
                Ok(keyed) => keyed_rows(
                    self@,
                    items@,
                    views(rows@),
                    0,
                    Seq::empty(),
                ) matches Ok(model) && model == views(keyed@),
                Err(error) => keyed_rows(
                    self@,
                    items@,
                    views(rows@),
                    0,
                    Seq::empty(),
                ) matches Err(wrong) && wrong == error@,
            },
    {
        let ghost world = self@;
        let ghost models = views(rows@);
        let mut keyed: Vec<Keyed<Bindings>> = Vec::new();
        assert(views(keyed@) =~= Seq::<KeyedModel<Scope>>::empty());
        let mut at: usize = 0;
        while at < rows.len()
            invariant
                at <= rows@.len(),
                world == self@,
                models == views(rows@),
                keyed_rows(world, items@, models, 0, Seq::empty()) == keyed_rows(
                    world,
                    items@,
                    models,
                    at as int,
                    views(keyed@),
                ),
            decreases rows@.len() - at,
        {
            assert(models[at as int] == rows@[at as int]@);
            let key = match self.key_of_row(items, &rows[at]) {
                Err(error) => return Err(error),
                Ok(key) => key,
            };
            let one = Keyed { key, payload: rows[at].clone() };
            proof {
                views_push(keyed@, one);
            }
            keyed.push(one);
            at = at + 1;
        }
        Ok(keyed)
    }

    fn row_of_group(
        &self,
        items: &Vec<ProjectionItem>,
        calls: &Vec<&Expression>,
        names: &Vec<String>,
        group: &Vec<&Bindings>,
    ) -> (made: Result<Projected, QueryError>)
        requires
            plain(calls@) == all_calls(items@, items@.len() as int),
            views(names@) == names_of_columns(items@),
        ensures
            match made {
                Ok(found) => grouped_row(
                    self@,
                    items@,
                    crate::order::shown(group@),
                ) matches Ok(model) && model == found@,
                Err(error) => grouped_row(
                    self@,
                    items@,
                    crate::order::shown(group@),
                ) matches Err(wrong) && wrong == error@,
            },
    {
        let ghost world = self@;
        let ghost scopes = crate::order::shown(group@);
        let values = match self.fold_calls(calls, group) {
            Err(error) => return Err(error),
            Ok(values) => values,
        };
        let ghost folds = views(values@);
        let none = Bindings::new();
        let scope: &Bindings = if group.len() > 0 {
            assert(scopes[0] == group@[0]@);
            group[0]
        } else {
            &none
        };
        let mut row: Vec<QueryValue> = Vec::new();
        assert(views(row@) =~= Seq::<QueryModel>::empty());
        let mut at: usize = 0;
        let mut place: usize = 0;
        while at < items.len()
            invariant
                at <= items@.len(),
                row@.len() == at,
                world == self@,
                folds == views(values@),
                values@.len() == all_calls(items@, items@.len() as int).len(),
                place == all_calls(items@, at as int).len(),
                views(names@) == names_of_columns(items@),
                folded_calls(
                    world,
                    all_calls(items@, items@.len() as int),
                    0,
                    scopes,
                    Seq::empty(),
                ) matches Ok(model) && model == folds,
                scopes == crate::order::shown(group@),
                scope@ == (if scopes.len() > 0 {
                    scopes[0]
                } else {
                    Map::empty()
                }),
                group_row(world, items@, 0, scope@, folds, Seq::empty()) == group_row(
                    world,
                    items@,
                    at as int,
                    scope@,
                    folds,
                    views(row@),
                ),
            decreases items@.len() - at,
        {
            proof {
                calls_fit(items@, at as int, items@.len() as int);
                calls_are_counted(items@[at as int].expression);
            }
            let own = Some(FoldedValues { values: &values, at: place });
            match self.evaluate_folded(&items[at].expression, scope, own) {
                Err(error) => {
                    return Err(error);
                }
                Ok(value) => {
                    proof {
                        views_push(row@, value);
                    }
                    row.push(value);
                }
            }
            let total: usize = values.len();
            place = place + aggregate_calls(&items[at].expression).len();
            at = at + 1;
        }
        let mut columns = Bindings::new();
        assert(views(names@).len() == names@.len());
        add_columns(&mut columns, names, &row);
        Ok(Projected { row, scope: columns })
    }

    fn rows_of_groups(
        &self,
        items: &Vec<ProjectionItem>,
        calls: &Vec<&Expression>,
        names: &Vec<String>,
        groups: &Vec<Vec<&Bindings>>,
    ) -> (made: Result<Vec<Projected>, QueryError>)
        requires
            plain(calls@) == all_calls(items@, items@.len() as int),
            views(names@) == names_of_columns(items@),
        ensures
            match made {
                Ok(found) => grouped_rows(
                    self@,
                    items@,
                    group_models(groups@),
                    0,
                    Seq::empty(),
                ) matches Ok(model) && model == views(found@),
                Err(error) => grouped_rows(
                    self@,
                    items@,
                    group_models(groups@),
                    0,
                    Seq::empty(),
                ) matches Err(wrong) && wrong == error@,
            },
    {
        let ghost world = self@;
        let ghost models = group_models(groups@);
        let mut found: Vec<Projected> = Vec::new();
        assert(views(found@) =~= Seq::<ProjectedRow>::empty());
        let mut at: usize = 0;
        while at < groups.len()
            invariant
                at <= groups@.len(),
                world == self@,
                models == group_models(groups@),
                plain(calls@) == all_calls(items@, items@.len() as int),
                views(names@) == names_of_columns(items@),
                grouped_rows(world, items@, models, 0, Seq::empty()) == grouped_rows(
                    world,
                    items@,
                    models,
                    at as int,
                    views(found@),
                ),
            decreases groups@.len() - at,
        {
            assert(models[at as int] == crate::order::shown(groups@[at as int]@));
            match self.row_of_group(items, calls, names, &groups[at]) {
                Err(error) => {
                    return Err(error);
                }
                Ok(row) => {
                    proof {
                        views_push(found@, row);
                    }
                    found.push(row);
                }
            }
            at = at + 1;
        }
        Ok(found)
    }

    fn project_groups(
        &self,
        items: &Vec<ProjectionItem>,
        calls: &Vec<&Expression>,
        names: &Vec<String>,
        rows: &Vec<Bindings>,
    ) -> (made: Result<Vec<Projected>, QueryError>)
        requires
            plain(calls@) == all_calls(items@, items@.len() as int),
            views(names@) == names_of_columns(items@),
        ensures
            match made {
                Ok(found) => aggregated(self@, items@, views(rows@)) matches Ok(model) && model
                    == views(found@),
                Err(error) => aggregated(self@, items@, views(rows@)) matches Err(wrong) && wrong
                    == error@,
            },
    {
        let keyed = match self.key_rows(items, rows) {
            Err(error) => return Err(error),
            Ok(keyed) => keyed,
        };
        let ghost models = views(keyed@);
        if keyed.len() == 0 && is_ungrouped(items) {
            let mut groups: Vec<Vec<&Bindings>> = Vec::new();
            let none: Vec<&Bindings> = Vec::new();
            assert(crate::order::shown(none@) =~= Seq::<Scope>::empty());
            groups.push(none);
            assert(group_models(groups@) =~= seq![Seq::<Scope>::empty()]);
            self.rows_of_groups(items, calls, names, &groups)
        } else {
            let ordered = sort(keyed);
            let groups = split_groups(&ordered);
            self.rows_of_groups(items, calls, names, &groups)
        }
    }

    fn keep_passing(&self, predicate: &Expression, rows: Vec<Projected>) -> (made: Result<
        Vec<Projected>,
        QueryError,
    >)
        ensures
            match made {
                Ok(kept) => passing(
                    self@,
                    *predicate,
                    views(rows@),
                    0,
                    Seq::empty(),
                ) matches Ok(model) && model == views(kept@),
                Err(error) => passing(
                    self@,
                    *predicate,
                    views(rows@),
                    0,
                    Seq::empty(),
                ) matches Err(wrong) && wrong == error@,
            },
    {
        let ghost world = self@;
        let ghost models = views(rows@);
        let mut kept: Vec<Projected> = Vec::new();
        assert(views(kept@) =~= Seq::<ProjectedRow>::empty());
        let mut at: usize = 0;
        while at < rows.len()
            invariant
                at <= rows@.len(),
                world == self@,
                models == views(rows@),
                passing(world, *predicate, models, 0, Seq::empty()) == passing(
                    world,
                    *predicate,
                    models,
                    at as int,
                    views(kept@),
                ),
            decreases rows@.len() - at,
        {
            assert(models[at as int] == rows@[at as int]@);
            match self.evaluate(predicate, &rows[at].scope) {
                Err(error) => {
                    return Err(error);
                }
                Ok(value) => {
                    if value.is_truthy() {
                        let copy = Projected {
                            row: copy_values(&rows[at].row),
                            scope: rows[at].scope.clone(),
                        };
                        proof {
                            views_push(kept@, copy);
                        }
                        kept.push(copy);
                    }
                }
            }
            at = at + 1;
        }
        Ok(kept)
    }

    fn sort_key_of(&self, order: &Vec<SortItem>, scope: &Bindings) -> (made: Result<
        Vec<SortPart>,
        QueryError,
    >)
        ensures
            match made {
                Ok(key) => sort_key(self@, order@, 0, scope@, Seq::empty()) matches Ok(model)
                    && model == views(key@),
                Err(error) => sort_key(self@, order@, 0, scope@, Seq::empty()) matches Err(wrong)
                    && wrong == error@,
            },
    {
        let ghost world = self@;
        let mut key: Vec<SortPart> = Vec::new();
        assert(views(key@) =~= Seq::<(bool, QueryModel)>::empty());
        let mut at: usize = 0;
        while at < order.len()
            invariant
                at <= order@.len(),
                world == self@,
                sort_key(world, order@, 0, scope@, Seq::empty()) == sort_key(
                    world,
                    order@,
                    at as int,
                    scope@,
                    views(key@),
                ),
            decreases order@.len() - at,
        {
            match self.evaluate(&order[at].expression, scope) {
                Err(error) => {
                    return Err(error);
                }
                Ok(value) => {
                    let part = SortPart { descending: order[at].descending, value };
                    proof {
                        views_push(key@, part);
                    }
                    key.push(part);
                }
            }
            at = at + 1;
        }
        Ok(key)
    }

    fn put_in_order(&self, order: &Vec<SortItem>, rows: Vec<Projected>) -> (made: Result<
        Vec<Projected>,
        QueryError,
    >)
        ensures
            match made {
                Ok(found) => sortable_rows(
                    self@,
                    order@,
                    views(rows@),
                    0,
                    Seq::empty(),
                ) matches Ok(keyed) && payloads(sorted::<Keyed<Projected>>(keyed)) == views(found@),
                Err(error) => sortable_rows(
                    self@,
                    order@,
                    views(rows@),
                    0,
                    Seq::empty(),
                ) matches Err(wrong) && wrong == error@,
            },
    {
        let ghost world = self@;
        let ghost models = views(rows@);
        let mut keyed: Vec<Keyed<Projected>> = Vec::new();
        assert(views(keyed@) =~= Seq::<KeyedModel<ProjectedRow>>::empty());
        let mut at: usize = 0;
        while at < rows.len()
            invariant
                at <= rows@.len(),
                world == self@,
                models == views(rows@),
                sortable_rows(world, order@, models, 0, Seq::empty()) == sortable_rows(
                    world,
                    order@,
                    models,
                    at as int,
                    views(keyed@),
                ),
            decreases rows@.len() - at,
        {
            assert(models[at as int] == rows@[at as int]@);
            let key = match self.sort_key_of(order, &rows[at].scope) {
                Err(error) => return Err(error),
                Ok(key) => key,
            };
            let one = Keyed {
                key,
                payload: Projected {
                    row: copy_values(&rows[at].row),
                    scope: rows[at].scope.clone(),
                },
            };
            proof {
                views_push(keyed@, one);
            }
            keyed.push(one);
            at = at + 1;
        }
        let sorted_rows = in_sequence(&keyed);
        let ghost all = payloads(sorted::<Keyed<Projected>>(views(keyed@)));
        let mut found: Vec<Projected> = Vec::new();
        let mut at: usize = 0;
        while at < sorted_rows.len()
            invariant
                at <= sorted_rows@.len(),
                crate::order::shown(sorted_rows@) == sorted::<Keyed<Projected>>(views(keyed@)),
                all == payloads(sorted::<Keyed<Projected>>(views(keyed@))),
                views(found@) =~= all.take(at as int),
            decreases sorted_rows@.len() - at,
        {
            assert(crate::order::shown(sorted_rows@)[at as int] == sorted_rows@[at as int]@);
            let payload = &sorted_rows[at].payload;
            let copy = Projected {
                row: copy_values(&payload.row),
                scope: payload.scope.clone(),
            };
            proof {
                views_push(found@, copy);
            }
            found.push(copy);
            at = at + 1;
        }
        assert(all.take(all.len() as int) =~= all);
        Ok(found)
    }

    fn count_of(&self, expression: &Expression, what: &str) -> (made: Result<usize, QueryError>)
        ensures
            match made {
                Ok(count) => row_count_of(self@, *expression, what@) matches Ok(model) && model
                    == count,
                Err(error) => row_count_of(self@, *expression, what@) matches Err(wrong) && wrong
                    == error@,
            },
    {
        let none = Bindings::new();
        match self.evaluate(expression, &none) {
            Err(error) => Err(error),
            Ok(value) => match value {
                QueryValue::Integer(number) => {
                    if number < 0 {
                        Err(unbound(joined(what, " must not be negative").as_str()))
                    } else if number as u64 > usize::MAX as u64 {
                        Err(unbound(joined(what, " is too large").as_str()))
                    } else {
                        Ok(number as usize)
                    }
                }
                _ => Err(unbound(joined(what, " must be an integer").as_str())),
            },
        }
    }

    fn arrange(&self, projection: &Projection, names: &Vec<String>, rows: &Vec<Bindings>) -> (made:
        Result<Vec<Projected>, QueryError>)
        requires
            views(names@) == names_of_columns(projection.items@),
        ensures
            match made {
                Ok(found) => arranged(self@, *projection, views(rows@)) matches Ok(model) && model
                    == views(found@),
                Err(error) => arranged(self@, *projection, views(rows@)) matches Err(wrong)
                    && wrong == error@,
            },
    {
        let calls = collect_calls(&projection.items);
        let first = if calls.len() > 0 {
            self.project_groups(&projection.items, &calls, names, rows)
        } else {
            self.project_plain(projection, names, rows)
        };
        let found = match first {
            Err(error) => return Err(error),
            Ok(found) => found,
        };
        let kept = match &projection.predicate {
            Some(predicate) => match self.keep_passing(predicate, found) {
                Err(error) => return Err(error),
                Ok(kept) => kept,
            },
            None => found,
        };
        let distinct = if projection.distinct {
            keep_distinct(kept)
        } else {
            kept
        };
        if projection.order_by.len() > 0 {
            self.put_in_order(&projection.order_by, distinct)
        } else {
            Ok(distinct)
        }
    }

    fn page(&self, projection: &Projection, found: &Vec<Projected>) -> (made: Result<
        Vec<Vec<QueryValue>>,
        QueryError,
    >)
        ensures
            match made {
                Ok(kept) => paged(
                    self@,
                    *projection,
                    row_values(views(found@)),
                ) matches Ok(model) && model == crate::procedure::row_models(kept@),
                Err(error) => paged(
                    self@,
                    *projection,
                    row_values(views(found@)),
                ) matches Err(wrong) && wrong == error@,
            },
    {
        let ghost models = views(found@);
        let from: usize = match &projection.skip {
            Some(expression) => match self.count_of(expression, "SKIP") {
                Err(error) => return Err(error),
                Ok(count) => if count > found.len() {
                    found.len()
                } else {
                    count
                },
            },
            None => 0,
        };
        let ghost rest = row_values(models).skip(from as int);
        assert(projection.skip is None ==> rest =~= row_values(models));
        let upto: usize = match &projection.limit {
            Some(expression) => match self.count_of(expression, "LIMIT") {
                Err(error) => return Err(error),
                Ok(count) => if count <= found.len() - from {
                    from + count
                } else {
                    found.len()
                },
            },
            None => found.len(),
        };
        let ghost all = rest.take(upto - from);
        assert(projection.limit is None ==> all =~= rest);
        assert(paged(self@, *projection, row_values(models)) matches Ok(model) && model == all);
        let mut kept: Vec<Vec<QueryValue>> = Vec::new();
        let mut at: usize = from;
        while at < upto
            invariant
                from <= at <= upto <= found@.len(),
                models == views(found@),
                rest == row_values(models).skip(from as int),
                all == rest.take(upto - from),
                crate::procedure::row_models(kept@) =~= all.take(at - from),
            decreases upto - at,
        {
            assert(models[at as int] == found@[at as int]@);
            let row = copy_values(&found[at].row);
            proof {
                crate::procedure::row_models_push(kept@, row);
            }
            kept.push(row);
            at = at + 1;
        }
        assert(all.take(all.len() as int) =~= all);
        Ok(kept)
    }

    /// What a projection makes of the rows.
    pub(crate) fn project(&self, projection: &Projection, rows: &Vec<Bindings>) -> (made: Result<
        (Vec<String>, Vec<Vec<QueryValue>>),
        QueryError,
    >)
        ensures
            match made {
                Ok(found) => views(found.0@) == names_of_columns(projection.items@) && (projected(
                    self@,
                    *projection,
                    views(rows@),
                ) matches Ok(model) && model == crate::procedure::row_models(found.1@)),
                Err(error) => projected(self@, *projection, views(rows@)) matches Err(wrong)
                    && wrong == error@,
            },
    {
        let names = column_names(projection);
        let found = match self.arrange(projection, &names, rows) {
            Err(error) => return Err(error),
            Ok(found) => found,
        };
        match self.page(projection, &found) {
            Err(error) => Err(error),
            Ok(kept) => Ok((names, kept)),
        }
    }
}

// -- Laws --------------------------------------------------------------------------

/// A `LIMIT` is kept: no more rows come back than it names.
pub proof fn limit_is_kept(
    world: World,
    projection: Projection,
    rows: Seq<Scope>,
    expression: Expression,
    count: nat,
)
    requires
        projection.limit == Some(expression),
        row_count_of(world, expression, "LIMIT"@) == Ok::<_, QueryErrorModel>(count),
    ensures
        projected(world, projection, rows) matches Ok(found) ==> found.len() <= count,
{
}

/// A `SKIP` leaves out that many rows from the front, and as many as there are where it
/// names more.
pub proof fn skip_leaves_out_the_front(
    world: World,
    projection: Projection,
    rows: Seq<Seq<QueryModel>>,
    expression: Expression,
    count: nat,
)
    requires
        projection.skip == Some(expression),
        projection.limit is None,
        row_count_of(world, expression, "SKIP"@) == Ok::<_, QueryErrorModel>(count),
    ensures
        paged(world, projection, rows) == Ok::<_, QueryErrorModel>(
            if count <= rows.len() {
                rows.skip(count as int)
            } else {
                Seq::empty()
            },
        ),
{
    if count > rows.len() {
        assert(rows.skip(rows.len() as int) =~= Seq::empty());
    }
}

/// Whether no two rows compare as the same.
pub open spec fn rows_differ(rows: Seq<ProjectedRow>) -> bool {
    forall|i: int, j: int|
        0 <= i < j < rows.len() ==> of_lists((#[trigger] rows[i]).0, (#[trigger] rows[j]).0, 0)
            != Relation::Same
}

proof fn unseen_row_differs(rows: Seq<ProjectedRow>, count: int, row: Seq<QueryModel>)
    requires
        !seen(row_values(rows), count, row),
        count <= rows.len(),
    ensures
        forall|i: int|
            0 <= i < count ==> of_lists((#[trigger] rows[i]).0, row, 0) != Relation::Same,
    decreases count,
{
    if count > 0 {
        unseen_row_differs(rows, count - 1, row);
        assert(row_values(rows)[count - 1] == rows[count - 1].0);
    }
}

/// A `DISTINCT` leaves no two rows that compare as the same.
pub proof fn distinct_rows_differ(rows: Seq<ProjectedRow>, at: int, before: Seq<ProjectedRow>)
    requires
        rows_differ(before),
    ensures
        rows_differ(distinct_rows(rows, at, before)),
    decreases rows.len() - at,
{
    if 0 <= at < rows.len() {
        if seen(row_values(before), before.len() as int, rows[at].0) {
            distinct_rows_differ(rows, at + 1, before);
        } else {
            unseen_row_differs(before, before.len() as int, rows[at].0);
            distinct_rows_differ(rows, at + 1, before.push(rows[at]));
        }
    }
}

/// Sorting rows loses none and adds none: as many come back as went in.
pub proof fn ordering_keeps_the_rows(world: World, projection: Projection, rows: Seq<ProjectedRow>)
    ensures
        ordered(world, projection, rows) matches Ok(found) ==> found.len() == rows.len(),
{
    if projection.order_by@.len() > 0 {
        keyed_count(world, projection.order_by@, rows, 0, Seq::empty());
        if let Ok(keyed) = sortable_rows(world, projection.order_by@, rows, 0, Seq::empty()) {
            crate::order::sorted_length::<Keyed<Projected>>(keyed);
        }
    }
}

/// An `ORDER BY` is kept: the rows come back in the order of the keys they are sorted by,
/// and are those that went in.
pub proof fn order_is_kept(
    world: World,
    projection: Projection,
    rows: Seq<ProjectedRow>,
    keyed: Seq<KeyedModel<ProjectedRow>>,
)
    requires
        projection.order_by@.len() > 0,
        sortable_rows(world, projection.order_by@, rows, 0, Seq::empty()) == Ok::<
            _,
            QueryErrorModel,
        >(keyed),
    ensures
        ordered(world, projection, rows) == Ok::<_, QueryErrorModel>(
            payloads(sorted::<Keyed<Projected>>(keyed)),
        ),
        crate::order::in_order::<Keyed<Projected>>(sorted::<Keyed<Projected>>(keyed)),
        sorted::<Keyed<Projected>>(keyed).to_multiset() == keyed.to_multiset(),
{
    crate::order::sorted_is_in_order::<Keyed<Projected>>(keyed);
    crate::order::sorted_keeps_items::<Keyed<Projected>>(keyed);
}

proof fn keyed_count(
    world: World,
    order: Seq<SortItem>,
    rows: Seq<ProjectedRow>,
    at: int,
    before: Seq<KeyedModel<ProjectedRow>>,
)
    requires
        0 <= at <= rows.len(),
        before.len() == at,
    ensures
        sortable_rows(world, order, rows, at, before) matches Ok(found) ==> found.len()
            == rows.len(),
    decreases rows.len() - at,
{
    if at < rows.len() {
        if let Ok(key) = sort_key(world, order, 0, rows[at].1, Seq::empty()) {
            keyed_count(
                world,
                order,
                rows,
                at + 1,
                before.push(KeyedModel { key, payload: rows[at] }),
            );
        }
    }
}

} // verus!
