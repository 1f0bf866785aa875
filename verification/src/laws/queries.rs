//! What a query asks for before it runs, and how the values it compares stand in order.

use crate::big::two;
use crate::big::two_adds;
use crate::big::Relation;
use crate::cypher::aggregate_name;
use crate::cypher::aggregates_in;
use crate::cypher::aggregates_of;
use crate::cypher::calls_in;
use crate::cypher::calls_of;
use crate::cypher::labels_of_parts;
use crate::cypher::parts_write;
use crate::cypher::with_clauses;
use crate::cypher::with_labels;
use crate::cypher::with_patterns;
use crate::cypher::with_steps;
use crate::cypher::writes_in;
use crate::cypher::Clause;
use crate::cypher::Expression;
use crate::cypher::NodePattern;
use crate::cypher::Pattern;
use crate::cypher::QueryPart;
use crate::cypher::RelationshipPattern;
use crate::decimal::lowered;
use crate::evidence::valid_score;
use crate::float::integer_units;
use crate::float::magnitude;
use crate::float::negative;
use crate::float::signed_units;
use crate::float::units;
use crate::float::Format;
use crate::id::bytes_precede;
use crate::laws::rows::joined_contains;
use crate::laws::rows::pushed_contains;
use crate::nost::validate::unit_interval;
use crate::single::units_grow;
use crate::value::compared;
use crate::value::of_handles;
use crate::value::of_paths;
use crate::value::QueryModel;
use crate::value::ScopedEdge;
use crate::value::ScopedNode;
use vstd::prelude::*;

verus! {

// -- Writing -----------------------------------------------------------------------

/// Whether a clause leaves the graph as it is.
pub open spec fn only_reads(clause: Clause) -> bool {
    clause is Match || clause is Unwind || clause is With || clause is Call
}

/// Whether a clause of a part does more than read.
pub open spec fn changes_something(part: QueryPart) -> bool {
    exists|i: int| 0 <= i < part.clauses@.len() && !only_reads(#[trigger] part.clauses@[i])
}

proof fn a_list_of_clauses_writes(clauses: Seq<Clause>, count: int)
    requires
        0 <= count <= clauses.len(),
    ensures
        writes_in(clauses, count) <==> exists|i: int|
            0 <= i < count && !only_reads(#[trigger] clauses[i]),
    decreases count,
{
    if count > 0 {
        a_list_of_clauses_writes(clauses, count - 1);
        assert(only_reads(clauses[count - 1]) || !only_reads(clauses[count - 1]));
    }
}

/// A query writes exactly where one of its clauses does more than read.
pub proof fn a_query_writes_where_a_clause_does(parts: Seq<QueryPart>, count: int)
    requires
        0 <= count <= parts.len(),
    ensures
        parts_write(parts, count) <==> exists|i: int|
            0 <= i < count && changes_something(#[trigger] parts[i]),
    decreases count,
{
    if count > 0 {
        a_query_writes_where_a_clause_does(parts, count - 1);
        let part = parts[count - 1];
        a_list_of_clauses_writes(part.clauses@, part.clauses@.len() as int);
        assert(changes_something(parts[count - 1]) || !changes_something(parts[count - 1]));
    }
}

// -- Labels ------------------------------------------------------------------------

/// Whether a node pattern names a label.
pub open spec fn node_names(node: NodePattern, name: Seq<char>) -> bool {
    exists|i: int| 0 <= i < node.labels@.len() && (#[trigger] node.labels@[i])@ == name
}

/// Whether a node behind a step names a label.
pub open spec fn step_names(
    steps: Seq<(RelationshipPattern, NodePattern)>,
    count: int,
    name: Seq<char>,
) -> bool {
    exists|i: int| 0 <= i < count && node_names((#[trigger] steps[i]).1, name)
}

/// Whether a node of a pattern names a label.
pub open spec fn pattern_names(pattern: Pattern, name: Seq<char>) -> bool {
    node_names(pattern.start, name) || step_names(
        pattern.steps@,
        pattern.steps@.len() as int,
        name,
    )
}

/// Whether a clause looks for a label.
pub open spec fn clause_looks_for(clause: Clause, name: Seq<char>) -> bool {
    match clause {
        Clause::Match { patterns, .. } => exists|i: int|
            0 <= i < patterns@.len() && pattern_names(#[trigger] patterns@[i], name),
        _ => false,
    }
}

/// Whether a part of a query looks for a label.
pub open spec fn part_looks_for(part: QueryPart, name: Seq<char>) -> bool {
    exists|i: int| 0 <= i < part.clauses@.len() && clause_looks_for(#[trigger] part.clauses@[i], name)
}

proof fn labels_join(before: Seq<Seq<char>>, labels: Seq<String>, count: int, name: Seq<char>)
    requires
        0 <= count <= labels.len(),
        before.no_duplicates(),
    ensures
        with_labels(before, labels, count).no_duplicates(),
        with_labels(before, labels, count).contains(name) <==> before.contains(name) || exists|
            i: int,
        |
            0 <= i < count && (#[trigger] labels[i])@ == name,
    decreases count,
{
    if count > 0 {
        labels_join(before, labels, count - 1, name);
        let earlier = with_labels(before, labels, count - 1);
        let last = labels[count - 1]@;
        pushed_contains(earlier, last, name);
        if last == name {
            assert(labels[count - 1]@ == name);
        }
    }
}

proof fn steps_join(
    before: Seq<Seq<char>>,
    steps: Seq<(RelationshipPattern, NodePattern)>,
    count: int,
    name: Seq<char>,
)
    requires
        0 <= count <= steps.len(),
        before.no_duplicates(),
    ensures
        with_steps(before, steps, count).no_duplicates(),
        with_steps(before, steps, count).contains(name) <==> before.contains(name) || step_names(
            steps,
            count,
            name,
        ),
    decreases count,
{
    if count > 0 {
        steps_join(before, steps, count - 1, name);
        let labels = steps[count - 1].1.labels@;
        labels_join(with_steps(before, steps, count - 1), labels, labels.len() as int, name);
        if node_names(steps[count - 1].1, name) {
            assert(step_names(steps, count, name));
        }
        if step_names(steps, count - 1, name) {
            let i = choose|i: int| 0 <= i < count - 1 && node_names((#[trigger] steps[i]).1, name);
            assert(node_names(steps[i].1, name));
        }
    }
}

proof fn patterns_join(
    before: Seq<Seq<char>>,
    patterns: Seq<Pattern>,
    count: int,
    name: Seq<char>,
)
    requires
        0 <= count <= patterns.len(),
        before.no_duplicates(),
    ensures
        with_patterns(before, patterns, count).no_duplicates(),
        with_patterns(before, patterns, count).contains(name) <==> before.contains(name) || exists|
            i: int,
        |
            0 <= i < count && pattern_names(#[trigger] patterns[i], name),
    decreases count,
{
    if count > 0 {
        patterns_join(before, patterns, count - 1, name);
        let pattern = patterns[count - 1];
        let earlier = with_patterns(before, patterns, count - 1);
        let labels = pattern.start.labels@;
        labels_join(earlier, labels, labels.len() as int, name);
        let start = with_labels(earlier, labels, labels.len() as int);
        steps_join(start, pattern.steps@, pattern.steps@.len() as int, name);
        assert(pattern_names(patterns[count - 1], name) || !pattern_names(
            patterns[count - 1],
            name,
        ));
    }
}

proof fn clauses_join(before: Seq<Seq<char>>, clauses: Seq<Clause>, count: int, name: Seq<char>)
    requires
        0 <= count <= clauses.len(),
        before.no_duplicates(),
    ensures
        with_clauses(before, clauses, count).no_duplicates(),
        with_clauses(before, clauses, count).contains(name) <==> before.contains(name) || exists|
            i: int,
        |
            0 <= i < count && clause_looks_for(#[trigger] clauses[i], name),
    decreases count,
{
    if count > 0 {
        clauses_join(before, clauses, count - 1, name);
        let earlier = with_clauses(before, clauses, count - 1);
        match clauses[count - 1] {
            Clause::Match { patterns, .. } => {
                patterns_join(earlier, patterns@, patterns@.len() as int, name);
            },
            _ => {},
        }
        assert(clause_looks_for(clauses[count - 1], name) || !clause_looks_for(
            clauses[count - 1],
            name,
        ));
    }
}

/// The labels a query needs are those its matches look for, each of them once.
pub proof fn a_query_needs_the_labels_it_matches(
    parts: Seq<QueryPart>,
    count: int,
    name: Seq<char>,
)
    requires
        0 <= count <= parts.len(),
    ensures
        labels_of_parts(parts, count).no_duplicates(),
        labels_of_parts(parts, count).contains(name) <==> exists|i: int|
            0 <= i < count && part_looks_for(#[trigger] parts[i], name),
    decreases count,
{
    if count > 0 {
        a_query_needs_the_labels_it_matches(parts, count - 1, name);
        let clauses = parts[count - 1].clauses@;
        clauses_join(labels_of_parts(parts, count - 1), clauses, clauses.len() as int, name);
        assert(part_looks_for(parts[count - 1], name) || !part_looks_for(parts[count - 1], name));
    }
}

// -- Aggregates --------------------------------------------------------------------

/// Whether an expression is the call of an aggregate.
pub open spec fn is_an_aggregate(expression: Expression) -> bool {
    expression is Call && aggregate_name(lowered(expression->Call_name@))
}

/// What is counted as an aggregate is the call of one, and an expression that is such a call
/// holds itself alone.
pub proof fn aggregates_are_calls(expression: Expression, call: Expression)
    ensures
        calls_of(expression).contains(call) ==> is_an_aggregate(call),
        is_an_aggregate(expression) ==> calls_of(expression) == seq![expression],
    decreases expression, 0int,
{
    match expression {
        Expression::Call { name, arguments } => {
            aggregates_in_are_calls(arguments@, arguments@.len() as int, call);
        },
        Expression::List(items) => {
            aggregates_in_are_calls(items@, items@.len() as int, call);
        },
        Expression::Not(inner) => {
            aggregates_are_calls(*inner, call);
        },
        Expression::Binary { left, right, .. } => {
            aggregates_are_calls(*left, call);
            aggregates_are_calls(*right, call);
            joined_contains(calls_of(*left), calls_of(*right), call);
        },
        _ => {},
    }
}

proof fn aggregates_in_are_calls(items: Seq<Expression>, count: int, call: Expression)
    ensures
        calls_in(items, count).contains(call) ==> is_an_aggregate(call),
    decreases items, count,
{
    if 0 < count <= items.len() {
        aggregates_in_are_calls(items, count - 1, call);
        aggregates_are_calls(items[count - 1], call);
        joined_contains(calls_in(items, count - 1), calls_of(items[count - 1]), call);
    }
}

proof fn aggregates_add_up(items: Seq<Expression>, count: int)
    requires
        0 <= count <= items.len(),
    ensures
        aggregates_in(items, count) > 0 <==> exists|i: int|
            0 <= i < count && aggregates_of(#[trigger] items[i]) > 0,
    decreases count,
{
    if count > 0 {
        aggregates_add_up(items, count - 1);
        if aggregates_of(items[count - 1]) > 0 {
            assert(aggregates_of(items[count - 1]) > 0);
        }
    }
}

/// Around what is no aggregate itself, there is one exactly where a part holds one.
pub proof fn aggregates_stand_in_the_parts(expression: Expression)
    ensures
        is_an_aggregate(expression) ==> aggregates_of(expression) == 1,
        expression is List ==> (aggregates_of(expression) > 0 <==> exists|i: int|
            0 <= i < expression->List_0@.len() && aggregates_of(
                #[trigger] expression->List_0@[i],
            ) > 0),
        expression is Call && !is_an_aggregate(expression) ==> (aggregates_of(expression) > 0
            <==> exists|i: int|
            0 <= i < expression->Call_arguments@.len() && aggregates_of(
                #[trigger] expression->Call_arguments@[i],
            ) > 0),
        expression is Not ==> aggregates_of(expression) == aggregates_of(*expression->Not_0),
        expression is Binary ==> aggregates_of(expression) == aggregates_of(
            *expression->Binary_left,
        ) + aggregates_of(*expression->Binary_right),
{
    match expression {
        Expression::Call { name, arguments } => {
            aggregates_add_up(arguments@, arguments@.len() as int);
        },
        Expression::List(items) => {
            aggregates_add_up(items@, items@.len() as int);
        },
        _ => {},
    }
}

// -- Comparing ---------------------------------------------------------------------

/// False comes before true, and a truth is the same as itself.
pub proof fn false_comes_before_true(a: bool, b: bool)
    ensures
        compared(QueryModel::Boolean(a), QueryModel::Boolean(b)) == Relation::Below <==> !a && b,
        compared(QueryModel::Boolean(a), QueryModel::Boolean(b)) == Relation::Same <==> a == b,
{
}

proof fn bytes_come_one_way(a: Seq<u8>, b: Seq<u8>)
    ensures
        !(bytes_precede(a, b) && bytes_precede(b, a)),
{
    if bytes_precede(a, b) && bytes_precede(b, a) {
        let i = choose|at: int|
            0 <= at < a.len() && at < b.len() && #[trigger] a[at] < b[at] && forall|i: int|
                0 <= i < at ==> a[i] == b[i];
        let j = choose|at: int|
            0 <= at < b.len() && at < a.len() && #[trigger] b[at] < a[at] && forall|i: int|
                0 <= i < at ==> b[i] == a[i];
        assert(a[i] < b[i] && b[j] < a[j]);
        if i < j {
            assert(b[i] == a[i]);
        } else if j < i {
            assert(a[j] == b[j]);
        }
    }
}

/// Records compare by their source first, and within a source by the first byte of their
/// identifiers that differs.
pub proof fn records_compare_by_source_and_identifier(
    a: ScopedNode,
    b: ScopedNode,
    c: ScopedEdge,
    d: ScopedEdge,
    k: int,
)
    ensures
        a.source < b.source ==> compared(QueryModel::Node(a), QueryModel::Node(b))
            == Relation::Below,
        a.source > b.source ==> compared(QueryModel::Node(a), QueryModel::Node(b))
            == Relation::Above,
        a.source == b.source && 0 <= k < a.id@.len() && k < b.id@.len() && a.id@[k] < b.id@[k] && (
        forall|i: int| 0 <= i < k ==> a.id@[i] == b.id@[i]) ==> compared(
            QueryModel::Node(a),
            QueryModel::Node(b),
        ) == Relation::Below && compared(QueryModel::Node(b), QueryModel::Node(a))
            == Relation::Above,
        c.source < d.source ==> compared(QueryModel::Relationship(c), QueryModel::Relationship(d))
            == Relation::Below,
        c.source > d.source ==> compared(QueryModel::Relationship(c), QueryModel::Relationship(d))
            == Relation::Above,
        c.source == d.source && 0 <= k < c.id@.len() && k < d.id@.len() && c.id@[k] < d.id@[k] && (
        forall|i: int| 0 <= i < k ==> c.id@[i] == d.id@[i]) ==> compared(
            QueryModel::Relationship(c),
            QueryModel::Relationship(d),
        ) == Relation::Below && compared(QueryModel::Relationship(d), QueryModel::Relationship(c))
            == Relation::Above,
{
    bytes_come_one_way(a.id@, b.id@);
    bytes_come_one_way(c.id@, d.id@);
}

/// Paths compare by the first node at which they differ, and where one is the front of the other
/// the shorter one comes first.
pub proof fn paths_compare_by_their_first_difference(
    a: Seq<ScopedNode>,
    b: Seq<ScopedNode>,
    at: int,
    k: int,
)
    requires
        0 <= at <= k <= a.len(),
        k <= b.len(),
        forall|i: int| at <= i < k ==> #[trigger] a[i] == b[i],
    ensures
        k < a.len() && k < b.len() && compared(QueryModel::Node(a[k]), QueryModel::Node(b[k]))
            != Relation::Same ==> of_paths(a, b, at) == compared(
            QueryModel::Node(a[k]),
            QueryModel::Node(b[k]),
        ),
        k == a.len() && k < b.len() ==> of_paths(a, b, at) == Relation::Below,
        k == b.len() && k < a.len() ==> of_paths(a, b, at) == Relation::Above,
        k == a.len() && k == b.len() ==> of_paths(a, b, at) == Relation::Same,
    decreases k - at,
{
    if at < k {
        assert(a[at] == b[at]);
        let handle = (a[at].source, a[at].id@);
        bytes_come_one_way(handle.1, handle.1);
        assert(of_handles(handle, handle) == Relation::Same);
        paths_compare_by_their_first_difference(a, b, at + 1, k);
    }
}

// -- Scores ------------------------------------------------------------------------

proof fn small_powers()
    ensures
        two(52) == 4503599627370496,
        two(23) == 8388608,
{
    assert(two(8) == 256 && two(7) == 128 && two(4) == 16) by {
        reveal_with_fuel(two, 9);
    }
    two_adds(8, 8);
    assert(256int * 256 == 65536) by (nonlinear_arith);
    two_adds(16, 16);
    assert(65536int * 65536 == 4294967296) by (nonlinear_arith);
    two_adds(32, 16);
    assert(4294967296int * 65536 == 281474976710656) by (nonlinear_arith);
    two_adds(48, 4);
    assert(281474976710656int * 16 == 4503599627370496) by (nonlinear_arith);
    two_adds(16, 7);
    assert(65536int * 128 == 8388608) by (nonlinear_arith);
}

/// A score lies within one exactly where its value is at least that of zero and at most that of
/// the integer one.
pub proof fn a_unit_score_lies_between_zero_and_one(bits: u64)
    ensures
        unit_interval(bits) <==> 0 <= signed_units(bits) <= integer_units(1),
{
    let double = Format::double();
    let one: int = 0x3ff0_0000_0000_0000;
    let pattern = magnitude(bits) as int;
    small_powers();
    two_adds(52, 1022);
    assert(one / 4503599627370496 - 1 == 1022);
    assert(one % 4503599627370496 == 0);
    assert(units(one, double) == two(1074));
    assert(units(0, double) == 0) by {
        assert(0int * two(0) == 0) by (nonlinear_arith);
    }
    assert(1int * two(1074) == two(1074)) by (nonlinear_arith);
    if pattern > 0 {
        units_grow(0, pattern, double);
    }
    if pattern < one {
        units_grow(pattern, one, double);
    } else if pattern > one {
        units_grow(one, pattern, double);
    }
}

/// A short score is accepted exactly where its value is at least that of zero and at most one.
pub proof fn a_short_score_lies_between_zero_and_one(bits: u32)
    ensures
        valid_score(bits) <==> (if bits < 0x8000_0000 {
            units(bits as int, Format::single()) <= two(149)
        } else {
            units(bits - 0x8000_0000, Format::single()) == 0
        }),
{
    let single = Format::single();
    let one: int = 0x3f80_0000;
    small_powers();
    two_adds(23, 126);
    assert(one / 8388608 - 1 == 126);
    assert(one % 8388608 == 0);
    assert(units(one, single) == two(149));
    assert(units(0, single) == 0) by {
        assert(0int * two(0) == 0) by (nonlinear_arith);
    }
    let pattern = if bits < 0x8000_0000 {
        bits as int
    } else {
        bits - 0x8000_0000
    };
    if pattern > 0 {
        units_grow(0, pattern, single);
    }
    if pattern < one {
        units_grow(pattern, one, single);
    } else if pattern > one {
        units_grow(one, pattern, single);
    }
}

} // verus!
