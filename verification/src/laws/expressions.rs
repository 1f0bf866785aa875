//! What expressions yield.

use crate::big::two;
use crate::big::two_adds;
use crate::big::Relation;
use crate::clauses::row_per_item;
use crate::clauses::rows_unwound;
use crate::cypher::BinaryOperator;
use crate::cypher::Expression;
use crate::cypher::QueryErrorModel;
use crate::decimal::lowered;
use crate::evaluate::called;
use crate::evaluate::edge_of_handle;
use crate::evaluate::evaluated;
use crate::evaluate::evaluated_from;
use crate::evaluate::first_present;
use crate::evaluate::holds_equal;
use crate::evaluate::node_of_handle;
use crate::evaluate::property_of;
use crate::evaluate::quotient;
use crate::evaluate::remainder;
use crate::evaluate::size_of;
use crate::evaluate::World;
use crate::laws::rows::joined_contains;
use crate::matching::Scope;
use crate::sorting::order_is_total;
use crate::text::precedes;
use crate::value::compared;
use crate::value::equal;
use crate::value::lists_equal;
use crate::value::QueryModel;
use vstd::prelude::*;

verus! {

/// What an expression comes to.
pub open spec fn yields(world: World, expression: Expression, row: Scope, value: QueryModel) -> bool {
    evaluated(world, expression, row, None) == Ok::<QueryModel, QueryErrorModel>(value)
}

/// An operator between two expressions.
pub open spec fn between(
    operator: BinaryOperator,
    left: Box<Expression>,
    right: Box<Expression>,
) -> Expression {
    Expression::Binary { operator, left, right }
}

/// Whether a number lies within 64 bits.
pub open spec fn fits(number: int) -> bool {
    -9223372036854775808 <= number <= 9223372036854775807
}

// -- Arithmetic --------------------------------------------------------------------

/// A difference with its right side added is the left side, and a sum with its right side
/// taken away is the left side. Where one does not fit into 64 bits, it is null.
pub proof fn sums_and_differences(
    world: World,
    left: Box<Expression>,
    right: Box<Expression>,
    row: Scope,
    a: i64,
    b: i64,
)
    requires
        yields(world, *left, row, QueryModel::Integer(a)),
        yields(world, *right, row, QueryModel::Integer(b)),
    ensures
        forall|d: i64|
            d + b == a ==> #[trigger] yields(
                world,
                between(BinaryOperator::Subtract, left, right),
                row,
                QueryModel::Integer(d),
            ),
        !fits(a - b) ==> yields(
            world,
            between(BinaryOperator::Subtract, left, right),
            row,
            QueryModel::Null,
        ),
        forall|s: i64|
            s - b == a ==> #[trigger] yields(
                world,
                between(BinaryOperator::Add, left, right),
                row,
                QueryModel::Integer(s),
            ),
        !fits(a + b) ==> yields(
            world,
            between(BinaryOperator::Add, left, right),
            row,
            QueryModel::Null,
        ),
{
}

/// Taking a number away and adding it again gives the first number back.
pub proof fn a_difference_is_undone(
    world: World,
    left: Box<Expression>,
    right: Box<Expression>,
    difference: Box<Expression>,
    row: Scope,
    a: i64,
    b: i64,
)
    requires
        yields(world, *left, row, QueryModel::Integer(a)),
        yields(world, *right, row, QueryModel::Integer(b)),
        fits(a - b),
        *difference == between(BinaryOperator::Subtract, left, right),
    ensures
        yields(world, between(BinaryOperator::Add, difference, right), row, QueryModel::Integer(a)),
{
    sums_and_differences(world, left, right, row, a, b);
    let d = (a - b) as i64;
    assert(yields(world, *difference, row, QueryModel::Integer(d)));
    sums_and_differences(world, difference, right, row, d, b);
}

/// A product is what the two sides make, counted out one by one, and null where it does not
/// fit into 64 bits.
pub proof fn products(
    world: World,
    left: Box<Expression>,
    right: Box<Expression>,
    row: Scope,
    a: i64,
    b: i64,
)
    requires
        yields(world, *left, row, QueryModel::Integer(a)),
        yields(world, *right, row, QueryModel::Integer(b)),
    ensures
        forall|p: i64|
            p == a * b ==> #[trigger] yields(
                world,
                between(BinaryOperator::Multiply, left, right),
                row,
                QueryModel::Integer(p),
            ),
        !fits(a * b) ==> yields(
            world,
            between(BinaryOperator::Multiply, left, right),
            row,
            QueryModel::Null,
        ),
{
}

/// The quotient times the divisor with the remainder added is the dividend. The remainder is
/// smaller than the divisor and has the sign of the dividend, so quotients round toward zero.
/// Dividing by zero is null.
pub proof fn quotients_and_remainders(
    world: World,
    left: Box<Expression>,
    right: Box<Expression>,
    row: Scope,
    a: i64,
    b: i64,
)
    requires
        yields(world, *left, row, QueryModel::Integer(a)),
        yields(world, *right, row, QueryModel::Integer(b)),
    ensures
        b != 0 && !(a == i64::MIN && b == -1) ==> exists|q: i64, r: i64|
            {
                &&& #[trigger] yields(
                    world,
                    between(BinaryOperator::Divide, left, right),
                    row,
                    QueryModel::Integer(q),
                )
                &&& #[trigger] yields(
                    world,
                    between(BinaryOperator::Modulo, left, right),
                    row,
                    QueryModel::Integer(r),
                )
                &&& q * b + r == a
                &&& (a >= 0 ==> r >= 0)
                &&& (a <= 0 ==> r <= 0)
                &&& -(if b < 0 {
                    -(b as int)
                } else {
                    b as int
                }) < r < (if b < 0 {
                    -(b as int)
                } else {
                    b as int
                })
            },
        b == 0 || (a == i64::MIN && b == -1) ==> yields(
            world,
            between(BinaryOperator::Divide, left, right),
            row,
            QueryModel::Null,
        ) && yields(world, between(BinaryOperator::Modulo, left, right), row, QueryModel::Null),
{
    if b != 0 && !(a == i64::MIN && b == -1) {
        let x = a as int;
        let y = b as int;
        let p = size_of(x);
        let s = size_of(y);
        let w = p / s;
        let r = p % s;
        assert(p == s * w + r && 0 <= r < s) by (nonlinear_arith)
            requires
                s > 0,
                p >= 0,
                w == p / s,
                r == p % s,
        ;
        assert(0 <= w <= p) by (nonlinear_arith)
            requires
                s >= 1,
                p >= 0,
                r >= 0,
                p == s * w + r,
                r < s,
        ;
        let q = quotient(x, y);
        let rest = remainder(x, y);
        assert(q * y + rest == x) by (nonlinear_arith)
            requires
                p == s * w + r,
                p == if x < 0 { -x } else { x },
                s == if y < 0 { -y } else { y },
                q == if (x < 0) != (y < 0) { -w } else { w },
                rest == if x < 0 { -r } else { r },
        ;
        if s == 1 {
            assert(w == p) by (nonlinear_arith)
                requires
                    s == 1,
                    p == s * w + r,
                    0 <= r < s,
            ;
        } else {
            assert(2 * w <= p) by (nonlinear_arith)
                requires
                    s >= 2,
                    w >= 0,
                    r >= 0,
                    p == s * w + r,
            ;
        }
        assert(fits(q) && fits(rest));
        assert(yields(
            world,
            between(BinaryOperator::Divide, left, right),
            row,
            QueryModel::Integer(q as i64),
        ));
        assert(yields(
            world,
            between(BinaryOperator::Modulo, left, right),
            row,
            QueryModel::Integer(rest as i64),
        ));
    } else if b != 0 {
        assert(size_of(a as int) / size_of(b as int) == 9223372036854775808);
    }
}

/// Adding texts puts the second behind the first.
pub proof fn texts_are_put_together(
    world: World,
    left: Box<Expression>,
    right: Box<Expression>,
    row: Scope,
    a: Seq<char>,
    b: Seq<char>,
)
    requires
        yields(world, *left, row, QueryModel::Text(a)),
        yields(world, *right, row, QueryModel::Text(b)),
    ensures
        exists|text: Seq<char>|
            {
                &&& #[trigger] yields(
                    world,
                    between(BinaryOperator::Add, left, right),
                    row,
                    QueryModel::Text(text),
                )
                &&& text.len() == a.len() + b.len()
                &&& text.take(a.len() as int) == a
                &&& text.skip(a.len() as int) == b
            },
{
    let text = a + b;
    assert(text.take(a.len() as int) =~= a);
    assert(text.skip(a.len() as int) =~= b);
    assert(yields(world, between(BinaryOperator::Add, left, right), row, QueryModel::Text(text)));
}

/// Arithmetic between anything but two integers is null, apart from adding texts.
pub proof fn other_arithmetic_is_null(
    world: World,
    operator: BinaryOperator,
    left: Box<Expression>,
    right: Box<Expression>,
    row: Scope,
    a: QueryModel,
    b: QueryModel,
)
    requires
        yields(world, *left, row, a),
        yields(world, *right, row, b),
        operator == BinaryOperator::Add || operator == BinaryOperator::Subtract || operator
            == BinaryOperator::Multiply || operator == BinaryOperator::Divide || operator
            == BinaryOperator::Modulo,
        !(a is Integer) || !(b is Integer),
        operator == BinaryOperator::Add ==> !(a is Text) || !(b is Text),
    ensures
        yields(world, between(operator, left, right), row, QueryModel::Null),
{
}

// -- Comparing ---------------------------------------------------------------------

proof fn integers_compare_by_value(a: i64, b: i64)
    ensures
        equal(QueryModel::Integer(a), QueryModel::Integer(b)) <==> a == b,
        compared(QueryModel::Integer(a), QueryModel::Integer(b)) == (if a < b {
            Relation::Below
        } else if a > b {
            Relation::Above
        } else {
            Relation::Same
        }),
{
    two_adds(1074, 0);
    let unit = two(1074) as int;
    assert(unit > 0);
    assert(a < b ==> a * unit < b * unit) by (nonlinear_arith)
        requires
            unit > 0,
    ;
    assert(a > b ==> a * unit > b * unit) by (nonlinear_arith)
        requires
            unit > 0,
    ;
}

/// Integers compare by what they are.
pub proof fn integers_compare(
    world: World,
    left: Box<Expression>,
    right: Box<Expression>,
    row: Scope,
    a: i64,
    b: i64,
)
    requires
        yields(world, *left, row, QueryModel::Integer(a)),
        yields(world, *right, row, QueryModel::Integer(b)),
    ensures
        yields(world, between(BinaryOperator::Equal, left, right), row, QueryModel::Boolean(a == b)),
        yields(world, between(BinaryOperator::NotEqual, left, right), row, QueryModel::Boolean(a != b)),
        yields(world, between(BinaryOperator::Less, left, right), row, QueryModel::Boolean(a < b)),
        yields(world, between(BinaryOperator::LessEqual, left, right), row, QueryModel::Boolean(a <= b)),
        yields(world, between(BinaryOperator::Greater, left, right), row, QueryModel::Boolean(a > b)),
        yields(world, between(BinaryOperator::GreaterEqual, left, right), row, QueryModel::Boolean(a >= b)),
{
    integers_compare_by_value(a, b);
}

/// Whether one text comes before another: at the first place where they differ its character
/// is the smaller one, or it ends there.
pub open spec fn stands_before(a: Seq<char>, b: Seq<char>) -> bool {
    exists|k: int|
        0 <= k <= a.len() && k < b.len() && #[trigger] a.take(k) == b.take(k) && (k == a.len()
            || a[k] < b[k])
}

pub proof fn texts_stand_in_order(a: Seq<char>, b: Seq<char>)
    ensures
        precedes(a, b) <==> stands_before(a, b),
    decreases a.len(),
{
    if b.len() > 0 && a.len() == 0 {
        assert(a.take(0) =~= b.take(0));
    } else if b.len() > 0 && a[0] != b[0] {
        assert(a.take(0) =~= b.take(0));
        if stands_before(a, b) {
            let k = choose|k: int|
                0 <= k <= a.len() && k < b.len() && #[trigger] a.take(k) == b.take(k) && (k
                    == a.len() || a[k] < b[k]);
            if k > 0 {
                assert(a.take(k)[0] == b.take(k)[0]);
            }
        }
    } else if b.len() > 0 {
        let x = a.drop_first();
        let y = b.drop_first();
        texts_stand_in_order(x, y);
        if stands_before(x, y) {
            let k = choose|k: int|
                0 <= k <= x.len() && k < y.len() && #[trigger] x.take(k) == y.take(k) && (k
                    == x.len() || x[k] < y[k]);
            assert forall|i: int| 0 <= i < k + 1 implies a[i] == b[i] by {
                if i > 0 {
                    assert(x.take(k)[i - 1] == y.take(k)[i - 1]);
                }
            }
            assert(a.take(k + 1) =~= b.take(k + 1));
        }
        if stands_before(a, b) {
            let k = choose|k: int|
                0 <= k <= a.len() && k < b.len() && #[trigger] a.take(k) == b.take(k) && (k
                    == a.len() || a[k] < b[k]);
            assert(k > 0);
            assert forall|i: int| 0 <= i < k - 1 implies x[i] == y[i] by {
                assert(a.take(k)[i + 1] == b.take(k)[i + 1]);
            }
            assert(x.take(k - 1) =~= y.take(k - 1));
        }
    }
}

proof fn text_relation(a: Seq<char>, b: Seq<char>)
    ensures
        equal(QueryModel::Text(a), QueryModel::Text(b)) <==> a == b,
        (compared(QueryModel::Text(a), QueryModel::Text(b)) == Relation::Below) == stands_before(a, b),
        (compared(QueryModel::Text(a), QueryModel::Text(b)) == Relation::Above) == stands_before(b, a),
{
    texts_stand_in_order(a, b);
    texts_stand_in_order(b, a);
    if precedes(a, b) {
        crate::order::texts_are_asymmetric(a, b);
    }
}

/// Texts compare by their first different character, and the beginning of a text comes before
/// it.
pub proof fn texts_compare(
    world: World,
    left: Box<Expression>,
    right: Box<Expression>,
    row: Scope,
    a: Seq<char>,
    b: Seq<char>,
)
    requires
        yields(world, *left, row, QueryModel::Text(a)),
        yields(world, *right, row, QueryModel::Text(b)),
    ensures
        yields(world, between(BinaryOperator::Equal, left, right), row, QueryModel::Boolean(a == b)),
        yields(world, between(BinaryOperator::NotEqual, left, right), row, QueryModel::Boolean(a != b)),
        yields(world, between(BinaryOperator::Less, left, right), row, QueryModel::Boolean(stands_before(a, b))),
        yields(world, between(BinaryOperator::Greater, left, right), row, QueryModel::Boolean(stands_before(b, a))),
        yields(world, between(BinaryOperator::LessEqual, left, right), row, QueryModel::Boolean(!stands_before(b, a))),
        yields(world, between(BinaryOperator::GreaterEqual, left, right), row, QueryModel::Boolean(!stands_before(a, b))),
{
    text_relation(a, b);
}

/// A comparison and its opposite disagree, and one the other way round agrees. Null compares
/// as null, except with `=`.
pub proof fn comparisons_fit_together(
    world: World,
    left: Box<Expression>,
    right: Box<Expression>,
    row: Scope,
    a: QueryModel,
    b: QueryModel,
)
    requires
        yields(world, *left, row, a),
        yields(world, *right, row, b),
    ensures
        exists|same: bool|
            #[trigger] yields(
                world,
                between(BinaryOperator::Equal, left, right),
                row,
                QueryModel::Boolean(same),
            ) && yields(
                world,
                between(BinaryOperator::NotEqual, left, right),
                row,
                QueryModel::Boolean(!same),
            ),
        a != QueryModel::Null && b != QueryModel::Null ==> exists|below: bool, above: bool|
            {
                &&& #[trigger] yields(
                    world,
                    between(BinaryOperator::Less, left, right),
                    row,
                    QueryModel::Boolean(below),
                )
                &&& #[trigger] yields(
                    world,
                    between(BinaryOperator::Greater, left, right),
                    row,
                    QueryModel::Boolean(above),
                )
                &&& yields(
                    world,
                    between(BinaryOperator::GreaterEqual, left, right),
                    row,
                    QueryModel::Boolean(!below),
                )
                &&& yields(
                    world,
                    between(BinaryOperator::LessEqual, left, right),
                    row,
                    QueryModel::Boolean(!above),
                )
                &&& yields(
                    world,
                    between(BinaryOperator::Less, right, left),
                    row,
                    QueryModel::Boolean(above),
                )
                &&& !(below && above)
            },
        a == QueryModel::Null || b == QueryModel::Null ==> yields(
            world,
            between(BinaryOperator::Less, left, right),
            row,
            QueryModel::Null,
        ) && yields(world, between(BinaryOperator::LessEqual, left, right), row, QueryModel::Null)
            && yields(world, between(BinaryOperator::Greater, left, right), row, QueryModel::Null)
            && yields(
            world,
            between(BinaryOperator::GreaterEqual, left, right),
            row,
            QueryModel::Null,
        ),
{
    order_is_total(a, b, a);
    assert(yields(
        world,
        between(BinaryOperator::Equal, left, right),
        row,
        QueryModel::Boolean(equal(a, b)),
    ));
    if a != QueryModel::Null && b != QueryModel::Null {
        assert(yields(
            world,
            between(BinaryOperator::Less, left, right),
            row,
            QueryModel::Boolean(compared(a, b) == Relation::Below),
        ));
        assert(yields(
            world,
            between(BinaryOperator::Greater, left, right),
            row,
            QueryModel::Boolean(compared(a, b) == Relation::Above),
        ));
    }
}

/// Values of different kinds are never equal, apart from numbers, and a value that is neither a
/// number nor a list equals itself alone.
pub proof fn equality_is_of_one_kind(a: QueryModel, b: QueryModel)
    ensures
        !(a is List) && !(b is List) && !(a is Integer) && !(a is Float) ==> (equal(a, b) <==> a == b),
        a is List && !(b is List) ==> !equal(a, b) && !equal(b, a),
        (a is Integer || a is Float) && !(b is Integer) && !(b is Float) ==> !equal(a, b) && !equal(b, a),
{
}

proof fn lists_are_equal_item_by_item(a: Seq<QueryModel>, b: Seq<QueryModel>, at: int)
    requires
        0 <= at <= a.len() == b.len(),
    ensures
        lists_equal(a, b, at) <==> forall|i: int| at <= i < a.len() ==> equal(#[trigger] a[i], b[i]),
    decreases a.len() - at,
{
    if at < a.len() {
        lists_are_equal_item_by_item(a, b, at + 1);
    }
}

/// Lists are equal where they are of one length and their items are equal in their places.
pub proof fn lists_are_equal_by_their_items(a: Seq<QueryModel>, b: Seq<QueryModel>)
    ensures
        equal(QueryModel::List(a), QueryModel::List(b)) <==> a.len() == b.len() && forall|i: int|
            0 <= i < a.len() ==> equal(#[trigger] a[i], b[i]),
{
    if a.len() == b.len() {
        lists_are_equal_item_by_item(a, b, 0);
    }
}

/// The kinds of values come in one order: nothing, booleans, numbers, texts, lists, nodes,
/// relationships, paths; and false comes before true.
pub proof fn kinds_come_in_order(a: QueryModel, b: QueryModel)
    ensures
        a == QueryModel::Null && b != QueryModel::Null ==> compared(a, b) == Relation::Below,
        a is Boolean && (b is Integer || b is Float || b is Text || b is List || b is Node
            || b is Relationship || b is Path) ==> compared(a, b) == Relation::Below,
        (a is Integer || a is Float) && (b is Text || b is List || b is Node || b is Relationship
            || b is Path) ==> compared(a, b) == Relation::Below,
        a is Text && (b is List || b is Node || b is Relationship || b is Path) ==> compared(a, b)
            == Relation::Below,
        a is List && (b is Node || b is Relationship || b is Path) ==> compared(a, b)
            == Relation::Below,
        a is Node && (b is Relationship || b is Path) ==> compared(a, b) == Relation::Below,
        a is Relationship && b is Path ==> compared(a, b) == Relation::Below,
        compared(QueryModel::Boolean(false), QueryModel::Boolean(true)) == Relation::Below,
        compared(QueryModel::Null, QueryModel::Null) == Relation::Same,
{
}

// -- Membership and logic ----------------------------------------------------------

proof fn held_somewhere(items: Seq<QueryModel>, value: QueryModel, at: int)
    requires
        0 <= at <= items.len(),
    ensures
        holds_equal(items, value, at) <==> exists|i: int|
            at <= i < items.len() && equal(#[trigger] items[i], value),
    decreases items.len() - at,
{
    if at < items.len() {
        held_somewhere(items, value, at + 1);
        if equal(items[at], value) {
            assert(at <= at < items.len() && equal(items[at], value));
        }
    }
}

/// `IN` asks whether some item of the list equals the value, and is null where there is no
/// list.
pub proof fn membership(
    world: World,
    left: Box<Expression>,
    right: Box<Expression>,
    row: Scope,
    a: QueryModel,
    b: QueryModel,
)
    requires
        yields(world, *left, row, a),
        yields(world, *right, row, b),
    ensures
        b matches QueryModel::List(items) ==> yields(
            world,
            between(BinaryOperator::In, left, right),
            row,
            QueryModel::Boolean(exists|i: int| 0 <= i < items.len() && equal(#[trigger] items[i], a)),
        ),
        !(b is List) ==> yields(
            world,
            between(BinaryOperator::In, left, right),
            row,
            QueryModel::Null,
        ),
{
    if let QueryModel::List(items) = b {
        held_somewhere(items, a, 0);
    }
}

/// `AND`, `OR` and `NOT` take only true for true. The right side is not asked where the left
/// one decides.
pub proof fn logic(
    world: World,
    left: Box<Expression>,
    right: Box<Expression>,
    row: Scope,
    a: QueryModel,
    b: QueryModel,
)
    requires
        yields(world, *left, row, a),
    ensures
        yields(
            world,
            Expression::Not(left),
            row,
            QueryModel::Boolean(a != QueryModel::Boolean(true)),
        ),
        a != QueryModel::Boolean(true) ==> yields(
            world,
            between(BinaryOperator::And, left, right),
            row,
            QueryModel::Boolean(false),
        ),
        a == QueryModel::Boolean(true) ==> yields(
            world,
            between(BinaryOperator::Or, left, right),
            row,
            QueryModel::Boolean(true),
        ),
        yields(world, *right, row, b) ==> yields(
            world,
            between(BinaryOperator::And, left, right),
            row,
            QueryModel::Boolean(a == QueryModel::Boolean(true) && b == QueryModel::Boolean(true)),
        ) && yields(
            world,
            between(BinaryOperator::Or, left, right),
            row,
            QueryModel::Boolean(a == QueryModel::Boolean(true) || b == QueryModel::Boolean(true)),
        ),
{
}

/// Literals, variables, parameters and properties yield what they name.
pub proof fn names_yield_what_they_name(
    world: World,
    row: Scope,
    name: String,
    key: String,
    number: i64,
    flag: bool,
)
    ensures
        yields(world, Expression::Integer(number), row, QueryModel::Integer(number)),
        yields(world, Expression::Text(name), row, QueryModel::Text(name@)),
        yields(world, Expression::Boolean(flag), row, QueryModel::Boolean(flag)),
        yields(world, Expression::Null, row, QueryModel::Null),
        row.contains_key(name@) ==> yields(world, Expression::Variable(name), row, row[name@]),
        row.contains_key(name@) ==> yields(
            world,
            Expression::Property { variable: name, key },
            row,
            property_of(world, row[name@], key@),
        ),
        world.parameters.contains_key(name@) ==> yields(
            world,
            Expression::Parameter(name),
            row,
            world.parameters[name@],
        ),
        !row.contains_key(name@) ==> evaluated(world, Expression::Variable(name), row, None) is Err
            && evaluated(world, Expression::Property { variable: name, key }, row, None) is Err,
        !world.parameters.contains_key(name@) ==> evaluated(
            world,
            Expression::Parameter(name),
            row,
            None,
        ) is Err,
{
}

proof fn items_yield_in_order(
    world: World,
    items: Seq<Expression>,
    at: int,
    row: Scope,
    before: Seq<QueryModel>,
)
    requires
        0 <= at <= items.len(),
    ensures
        evaluated_from(world, items, at, row, None, before) matches Ok(values) ==> values.len()
            == before.len() + items.len() - at && values.take(before.len() as int) == before && forall|
            i: int,
        |
            at <= i < items.len() ==> yields(
                world,
                #[trigger] items[i],
                row,
                values[before.len() + i - at],
            ),
    decreases items.len() - at,
{
    if at < items.len() {
        if let Ok(value) = evaluated(world, items[at], row, None) {
            let more = before.push(value);
            items_yield_in_order(world, items, at + 1, row, more);
            if let Ok(values) = evaluated_from(world, items, at, row, None, before) {
                assert(values.take(before.len() as int) =~= before) by {
                    assert forall|k: int| 0 <= k < before.len() implies values[k] == before[k] by {
                        assert(values.take(more.len() as int)[k] == more[k]);
                    }
                }
                assert(values.take(more.len() as int)[before.len() as int] == value);
                assert forall|i: int| at <= i < items.len() implies yields(
                    world,
                    #[trigger] items[i],
                    row,
                    values[before.len() + i - at],
                ) by {
                    if i > at {
                        assert(yields(world, items[i], row, values[more.len() + i - (at + 1)]));
                        assert(more.len() + i - (at + 1) == before.len() + i - at);
                    }
                }
            }
        }
    } else {
        assert(before.take(before.len() as int) =~= before);
    }
}

/// A list yields the values of its items in their places.
pub proof fn a_list_yields_its_items(world: World, items: Vec<Expression>, row: Scope)
    ensures
        evaluated(world, Expression::List(items), row, None) matches Ok(value) ==> (value matches
            QueryModel::List(values) && values.len() == items@.len() && forall|i: int|
            0 <= i < items@.len() ==> yields(world, #[trigger] items@[i], row, values[i])),
{
    items_yield_in_order(world, items@, 0, row, Seq::empty());
}

// -- Functions ---------------------------------------------------------------------

proof fn first_present_is_first(values: Seq<QueryModel>, at: int)
    requires
        0 <= at <= values.len(),
    ensures
        (forall|i: int| at <= i < values.len() ==> #[trigger] values[i] == QueryModel::Null)
            ==> first_present(values, at) == QueryModel::Null,
        forall|k: int|
            at <= k < values.len() && #[trigger] values[k] != QueryModel::Null && (forall|j: int|
                at <= j < k ==> #[trigger] values[j] == QueryModel::Null) ==> first_present(
                values,
                at,
            ) == values[k],
    decreases values.len() - at,
{
    if at < values.len() {
        first_present_is_first(values, at + 1);
        if values[at] == QueryModel::Null {
            assert forall|k: int|
                at <= k < values.len() && #[trigger] values[k] != QueryModel::Null && (forall|j: int|
                    at <= j < k ==> #[trigger] values[j] == QueryModel::Null) implies first_present(
                values,
                at,
            ) == values[k] by {
                assert(k > at);
            }
        } else {
            assert forall|k: int|
                at <= k < values.len() && #[trigger] values[k] != QueryModel::Null && (forall|j: int|
                    at <= j < k ==> #[trigger] values[j] == QueryModel::Null) implies first_present(
                values,
                at,
            ) == values[k] by {
                if k > at {
                    assert(values[at] == QueryModel::Null);
                }
            }
        }
    }
}

/// `coalesce` yields its first value that is not null, and null where all are.
pub proof fn coalesce_takes_the_first_value(
    world: World,
    name: Seq<char>,
    values: Seq<QueryModel>,
    k: int,
)
    requires
        lowered(name) == "coalesce"@,
    ensures
        0 <= k < values.len() && values[k] != QueryModel::Null && (forall|j: int|
            0 <= j < k ==> #[trigger] values[j] == QueryModel::Null) ==> called(world, name, values)
            == Ok::<QueryModel, QueryErrorModel>(values[k]),
        (forall|j: int| 0 <= j < values.len() ==> #[trigger] values[j] == QueryModel::Null)
            ==> called(world, name, values) == Ok::<QueryModel, QueryErrorModel>(QueryModel::Null),
{
    function_names();
    first_present_is_first(values, 0);
}

proof fn function_names()
    ensures
        !crate::evaluate::in_namespace("coalesce"@),
        !crate::evaluate::in_namespace("size"@),
        !crate::evaluate::in_namespace("labels"@),
        !crate::evaluate::in_namespace("type"@),
        !crate::evaluate::in_namespace("toupper"@),
        !crate::evaluate::in_namespace("tolower"@),
        "coalesce"@ != "size"@ && "coalesce"@ != "labels"@ && "coalesce"@ != "type"@ && "coalesce"@
            != "toupper"@ && "coalesce"@ != "tolower"@,
        "size"@ != "labels"@ && "size"@ != "type"@ && "size"@ != "toupper"@ && "size"@ != "tolower"@,
        "labels"@ != "type"@ && "labels"@ != "toupper"@ && "labels"@ != "tolower"@,
        "type"@ != "toupper"@ && "type"@ != "tolower"@ && "toupper"@ != "tolower"@,
{
    reveal_strlit("coalesce");
    reveal_strlit("size");
    reveal_strlit("labels");
    reveal_strlit("type");
    reveal_strlit("toupper");
    reveal_strlit("tolower");
    reveal_strlit("nostdb.");
    assert("coalesce"@.take(7)[0] == 'c' && "toupper"@.take(7)[0] == 't' && "tolower"@.take(7)[0]
        == 't' && "nostdb."@[0] == 'n');
    assert("size"@[0] == 's' && "type"@[0] == 't' && "size"@.len() == 4 && "type"@.len() == 4);
    assert("labels"@.len() == 6 && "coalesce"@.len() == 8 && "toupper"@.len() == 7
        && "tolower"@.len() == 7);
    assert("toupper"@[2] == 'u' && "tolower"@[2] == 'l');
}

/// `size` counts the items of a list and the characters of a text. `labels` lists the labels of
/// a node, `type` names that of a relationship. Of anything else they are null, and a function
/// that is not known is refused.
pub proof fn functions_say_what_they_name(
    world: World,
    name: Seq<char>,
    values: Seq<QueryModel>,
    first: QueryModel,
)
    requires
        values.len() > 0,
        values[0] == first,
    ensures
        lowered(name) == "size"@ ==> called(world, name, values) == Ok::<_, QueryErrorModel>(
            match first {
                QueryModel::List(items) => QueryModel::Integer(items.len() as i64),
                QueryModel::Text(text) => QueryModel::Integer(text.len() as i64),
                _ => QueryModel::Null,
            },
        ),
        lowered(name) == "labels"@ ==> (first matches QueryModel::Node(handle) ==> (
        node_of_handle(world, handle) matches Some(node) ==> (called(world, name, values) matches Ok(
            QueryModel::List(items),
        ) && items.len() == node.labels.len() && forall|i: int|
            0 <= i < items.len() ==> #[trigger] items[i] == QueryModel::Text(node.labels[i])))),
        lowered(name) == "type"@ ==> (first matches QueryModel::Relationship(handle) ==> (
        edge_of_handle(world, handle) matches Some(edge) ==> called(world, name, values) == Ok::<
            _,
            QueryErrorModel,
        >(QueryModel::Text(edge.relation)))),
        lowered(name) == "labels"@ && !(first is Node) ==> called(world, name, values) == Ok::<
            _,
            QueryErrorModel,
        >(QueryModel::Null),
        lowered(name) == "type"@ && !(first is Relationship) ==> called(world, name, values)
            == Ok::<_, QueryErrorModel>(QueryModel::Null),
        lowered(name) == "toupper"@ || lowered(name) == "tolower"@ ==> (called(world, name, values)
            matches Ok(value) && (first is Text ==> value is Text) && (!(first is Text) ==> value
            == QueryModel::Null)),
        lowered(name) == "toupper"@ ==> (first matches QueryModel::Text(text) ==> called(
            world,
            name,
            values,
        ) == Ok::<_, QueryErrorModel>(QueryModel::Text(crate::evaluate::uppercase_of(text)))),
        lowered(name) == "tolower"@ ==> (first matches QueryModel::Text(text) ==> called(
            world,
            name,
            values,
        ) == Ok::<_, QueryErrorModel>(QueryModel::Text(crate::evaluate::lowercase_of(text)))),
{
    function_names();
}

// -- Unwinding ---------------------------------------------------------------------

/// `UNWIND` makes one row of each item of the list that a row yields, with the variable bound
/// to the item, and no row where it yields no list.
pub proof fn unwinding_gives_a_row_per_item(
    world: World,
    list: Expression,
    variable: Seq<char>,
    rows: Seq<Scope>,
    at: int,
    before: Seq<Scope>,
    row: Scope,
)
    requires
        0 <= at <= rows.len(),
    ensures
        rows_unwound(world, list, variable, rows, at, before) matches Ok(found) ==> (found.contains(
            row,
        ) <==> before.contains(row) || exists|i: int, k: int|
            at <= i < rows.len() && #[trigger] unwinds_to(world, list, variable, rows[i], k, row)),
    decreases rows.len() - at,
{
    if at < rows.len() {
        if let Ok(value) = evaluated(world, list, rows[at], None) {
            if let QueryModel::List(items) = value {
                let more = row_per_item(rows[at], variable, items);
                joined_contains(before, more, row);
                unwinding_gives_a_row_per_item(
                    world,
                    list,
                    variable,
                    rows,
                    at + 1,
                    before + more,
                    row,
                );
                if more.contains(row) {
                    let k = choose|k: int| 0 <= k < more.len() && more[k] == row;
                    assert(unwinds_to(world, list, variable, rows[at], k, row));
                }
                assert forall|k: int| #[trigger]
                    unwinds_to(world, list, variable, rows[at], k, row) implies more.contains(row) by {
                    assert(more[k] == row);
                }
            } else {
                unwinding_gives_a_row_per_item(world, list, variable, rows, at + 1, before, row);
            }
        }
    }
}

/// Whether a row is another with a variable bound to an item of the list that the other
/// yields.
pub open spec fn unwinds_to(
    world: World,
    list: Expression,
    variable: Seq<char>,
    base: Scope,
    k: int,
    row: Scope,
) -> bool {
    evaluated(world, list, base, None) matches Ok(QueryModel::List(items)) && 0 <= k < items.len()
        && row == base.insert(variable, items[k])
}

} // verus!
