//! The query language, as a query is read.

use crate::diagnostic::DiagnosticCode;
use crate::evidence::SourceRange;
use crate::text::same;
use crate::text::views;
use crate::text::views_push;
use vstd::prelude::*;

verus! {

// -- Errors ------------------------------------------------------------------------

/// Why a query was refused.
#[derive(Debug, PartialEq, Eq)]
pub struct QueryError {
    /// The stable code.
    pub code: DiagnosticCode,
    /// What is wrong.
    pub message: String,
    /// Where it is.
    pub range: SourceRange,
}

/// What a refusal says.
pub struct QueryErrorModel {
    /// The stable code.
    pub code: DiagnosticCode,
    /// What is wrong.
    pub message: Seq<char>,
    /// Where it is.
    pub range: SourceRange,
}

impl View for QueryError {
    type V = QueryErrorModel;

    open spec fn view(&self) -> QueryErrorModel {
        QueryErrorModel { code: self.code, message: self.message@, range: self.range }
    }
}

impl QueryError {
    /// A refusal with a code, a message and a place.
    pub fn at(code: DiagnosticCode, message: String, range: SourceRange) -> (error: Self)
        ensures
            error@ == (QueryErrorModel { code, message: message@, range }),
    {
        QueryError { code, message, range }
    }
}

/// A query that is in the subset and means nothing.
pub open spec fn meaningless(message: Seq<char>, range: SourceRange) -> QueryErrorModel {
    QueryErrorModel { code: DiagnosticCode::CypherSemanticError, message, range }
}

/// A query that is in the subset and means nothing.
pub(crate) fn semantic(message: &str, range: SourceRange) -> (error: QueryError)
    ensures
        error@ == meaningless(message@, range),
{
    QueryError::at(DiagnosticCode::CypherSemanticError, message.to_owned(), range)
}

/// A query that means nothing, at no particular place.
pub(crate) fn unbound(message: &str) -> (error: QueryError)
    ensures
        error@ == meaningless(message@, SourceRange::at_origin()),
{
    semantic(message, SourceRange::origin())
}

// -- Expressions -------------------------------------------------------------------

/// An operator between two expressions.
#[derive(Clone, Copy, Debug, PartialEq, Eq, Structural)]
pub enum BinaryOperator {
    /// Either holds.
    Or,
    /// Both hold.
    And,
    /// Equal.
    Equal,
    /// Not equal.
    NotEqual,
    /// Less.
    Less,
    /// Less or equal.
    LessEqual,
    /// Greater.
    Greater,
    /// Greater or equal.
    GreaterEqual,
    /// Among the items of a list.
    In,
    /// Sum, or texts put together.
    Add,
    /// Difference.
    Subtract,
    /// Product.
    Multiply,
    /// Quotient.
    Divide,
    /// Remainder.
    Modulo,
}

/// An expression.
#[derive(Debug, PartialEq, Eq)]
pub enum Expression {
    /// An integer.
    Integer(i64),
    /// A number with a point or an exponent, as written.
    Float(String),
    /// Text.
    Text(String),
    /// A boolean.
    Boolean(bool),
    /// Null.
    Null,
    /// A parameter, without the `$`.
    Parameter(String),
    /// A variable.
    Variable(String),
    /// A property of a variable.
    Property {
        /// The variable.
        variable: String,
        /// The key.
        key: String,
    },
    /// A list.
    List(Vec<Expression>),
    /// A negation.
    Not(Box<Expression>),
    /// A call of a function.
    Call {
        /// The name as written.
        name: String,
        /// The arguments.
        arguments: Vec<Expression>,
    },
    /// An operator between two expressions.
    Binary {
        /// The operator.
        operator: BinaryOperator,
        /// The left operand.
        left: Box<Expression>,
        /// The right operand.
        right: Box<Expression>,
    },
}

/// The one argument of `count(*)`, as a variable no query can name.
pub const STAR_ARGUMENT: &'static str = "*";

/// Whether a function name is that of an aggregate, in lower case.
pub open spec fn aggregate_name(lower: Seq<char>) -> bool {
    ||| lower == "count"@
    ||| lower == "collect"@
    ||| lower == "min"@
    ||| lower == "max"@
    ||| lower == "sum"@
    ||| lower == "avg"@
}

/// Whether a function name is that of an aggregate. Case does not count.
pub fn is_aggregate(name: &str) -> (answer: bool)
    ensures
        answer == aggregate_name(crate::decimal::lowered(name@)),
{
    let lower = lower_text(name);
    let text = lower.as_str();
    same(text, "count") || same(text, "collect") || same(text, "min") || same(text, "max") || same(
        text,
        "sum",
    ) || same(text, "avg")
}

/// A text with its ASCII letters in lower case.
pub fn lower_text(text: &str) -> (lower: String)
    ensures
        lower@ == crate::decimal::lowered(text@),
{
    let all = crate::text::characters(text);
    let mut lower = String::new();
    let mut at: usize = 0;
    while at < all.len()
        invariant
            at <= all@.len(),
            all@ == text@,
            lower@ =~= crate::decimal::lowered(text@).take(at as int),
        decreases all@.len() - at,
    {
        lower.push(crate::decimal::lower_char(all[at]));
        at = at + 1;
    }
    assert(lower@ =~= crate::decimal::lowered(text@));
    lower
}

/// How many aggregates the first `count` expressions hold.
pub open spec fn aggregates_in(items: Seq<Expression>, count: int) -> nat
    decreases items, count,
{
    if count <= 0 || count > items.len() {
        0
    } else {
        aggregates_in(items, count - 1) + aggregates_of(items[count - 1])
    }
}

/// How many aggregates an expression holds. What stands inside one does not count.
pub open spec fn aggregates_of(expression: Expression) -> nat
    decreases expression, 0int,
{
    match expression {
        Expression::Call { name, arguments } => if aggregate_name(
            crate::decimal::lowered(name@),
        ) {
            1
        } else {
            aggregates_in(arguments@, arguments@.len() as int)
        },
        Expression::List(items) => aggregates_in(items@, items@.len() as int),
        Expression::Not(inner) => aggregates_of(*inner),
        Expression::Binary { left, right, .. } => aggregates_of(*left) + aggregates_of(*right),
        _ => 0,
    }
}

/// The aggregates the first `count` expressions hold, in order.
pub open spec fn calls_in(items: Seq<Expression>, count: int) -> Seq<Expression>
    decreases items, count,
{
    if count <= 0 || count > items.len() {
        Seq::empty()
    } else {
        calls_in(items, count - 1) + calls_of(items[count - 1])
    }
}

/// The aggregates an expression holds, in order.
pub open spec fn calls_of(expression: Expression) -> Seq<Expression>
    decreases expression, 0int,
{
    match expression {
        Expression::Call { name, arguments } => if aggregate_name(
            crate::decimal::lowered(name@),
        ) {
            seq![expression]
        } else {
            calls_in(arguments@, arguments@.len() as int)
        },
        Expression::List(items) => calls_in(items@, items@.len() as int),
        Expression::Not(inner) => calls_of(*inner),
        Expression::Binary { left, right, .. } => calls_of(*left) + calls_of(*right),
        _ => Seq::empty(),
    }
}

/// There are as many aggregates as are counted.
pub proof fn calls_are_counted(expression: Expression)
    ensures
        calls_of(expression).len() == aggregates_of(expression),
    decreases expression, 0int,
{
    match expression {
        Expression::Call { name, arguments } => {
            calls_in_are_counted(arguments@, arguments@.len() as int);
        },
        Expression::List(items) => {
            calls_in_are_counted(items@, items@.len() as int);
        },
        Expression::Not(inner) => {
            calls_are_counted(*inner);
        },
        Expression::Binary { left, right, .. } => {
            calls_are_counted(*left);
            calls_are_counted(*right);
        },
        _ => {},
    }
}

proof fn calls_in_are_counted(items: Seq<Expression>, count: int)
    ensures
        calls_in(items, count).len() == aggregates_in(items, count),
    decreases items, count,
{
    if 0 < count <= items.len() {
        calls_in_are_counted(items, count - 1);
        calls_are_counted(items[count - 1]);
    }
}

/// The aggregates an expression holds, in order.
pub fn aggregate_calls<'a>(expression: &'a Expression) -> (calls: Vec<&'a Expression>)
    ensures
        calls@.len() == calls_of(*expression).len(),
        forall|i: int| 0 <= i < calls@.len() ==> *(#[trigger] calls@[i]) == calls_of(*expression)[i],
    decreases expression,
{
    let mut calls: Vec<&'a Expression> = Vec::new();
    match expression {
        Expression::Call { name, arguments } => {
            if is_aggregate(name.as_str()) {
                calls.push(expression);
                calls
            } else {
                list_calls(arguments)
            }
        }
        Expression::List(items) => list_calls(items),
        Expression::Not(inner) => aggregate_calls(inner),
        Expression::Binary { left, right, .. } => {
            let mut first = aggregate_calls(left);
            let mut second = aggregate_calls(right);
            first.append(&mut second);
            first
        }
        _ => calls,
    }
}

/// The aggregates a list of expressions holds, in order.
fn list_calls<'a>(items: &'a Vec<Expression>) -> (calls: Vec<&'a Expression>)
    ensures
        calls@.len() == calls_in(items@, items@.len() as int).len(),
        forall|i: int|
            0 <= i < calls@.len() ==> *(#[trigger] calls@[i]) == calls_in(
                items@,
                items@.len() as int,
            )[i],
    decreases items,
{
    let mut calls: Vec<&'a Expression> = Vec::new();
    let mut at: usize = 0;
    while at < items.len()
        invariant
            at <= items@.len(),
            calls@.len() == calls_in(items@, at as int).len(),
            forall|i: int|
                0 <= i < calls@.len() ==> *(#[trigger] calls@[i]) == calls_in(items@, at as int)[i],
        decreases items@.len() - at,
    {
        assert(decreases_to!(items => items@[at as int]));
        let mut more = aggregate_calls(&items[at]);
        calls.append(&mut more);
        at = at + 1;
    }
    calls
}

// -- Patterns ----------------------------------------------------------------------

/// Which way a relationship is walked.
#[derive(Clone, Copy, Debug, PartialEq, Eq, Structural)]
pub enum Direction {
    /// From source to target.
    Outgoing,
    /// From target to source.
    Incoming,
    /// Both ways.
    Either,
}

/// How often a relationship is walked.
#[derive(Clone, Copy, Debug, PartialEq, Eq, Structural)]
pub struct LengthRange {
    /// At least this often.
    pub minimum: u32,
    /// At most this often.
    pub maximum: u32,
}

/// A node of a pattern.
#[derive(Debug, PartialEq, Eq)]
pub struct NodePattern {
    /// The variable it is bound to.
    pub variable: Option<String>,
    /// The labels it carries.
    pub labels: Vec<String>,
    /// The properties it has.
    pub properties: Vec<(String, Expression)>,
}

/// A relationship of a pattern.
#[derive(Debug, PartialEq, Eq)]
pub struct RelationshipPattern {
    /// The variable it is bound to.
    pub variable: Option<String>,
    /// The types it may have; any where there are none.
    pub types: Vec<String>,
    /// Which way it is walked.
    pub direction: Direction,
    /// How often it is walked, where not exactly once.
    pub length: Option<LengthRange>,
    /// The properties it has.
    pub properties: Vec<(String, Expression)>,
}

/// A path through the graph.
#[derive(Debug, PartialEq, Eq)]
pub struct Pattern {
    /// The variable the path is bound to.
    pub path_variable: Option<String>,
    /// The first node.
    pub start: NodePattern,
    /// Each relationship and the node behind it.
    pub steps: Vec<(RelationshipPattern, NodePattern)>,
}

// -- Clauses -----------------------------------------------------------------------

/// One column of a projection.
#[derive(Debug, PartialEq, Eq)]
pub struct ProjectionItem {
    /// What it holds.
    pub expression: Expression,
    /// What it is called.
    pub alias: Option<String>,
    /// The expression as written, which names the column where nothing else does.
    pub text: String,
}

/// One value rows are sorted by.
#[derive(Debug, PartialEq, Eq)]
pub struct SortItem {
    /// The value.
    pub expression: Expression,
    /// Whether larger values come first.
    pub descending: bool,
}

/// What a `WITH` or a `RETURN` makes of the rows.
#[derive(Debug, PartialEq, Eq)]
pub struct Projection {
    /// Whether duplicate rows are removed.
    pub distinct: bool,
    /// The columns.
    pub items: Vec<ProjectionItem>,
    /// What a row must meet.
    pub predicate: Option<Expression>,
    /// What rows are sorted by.
    pub order_by: Vec<SortItem>,
    /// How many rows are left out at the front.
    pub skip: Option<Expression>,
    /// How many rows are kept.
    pub limit: Option<Expression>,
}

/// One column a `CALL` keeps.
#[derive(Debug, PartialEq, Eq)]
pub struct YieldItem {
    /// The column of the procedure.
    pub column: String,
    /// The name it is bound to, where not its own.
    pub alias: Option<String>,
}

/// A `CALL`.
#[derive(Debug, PartialEq, Eq)]
pub struct ProcedureCall {
    /// The dotted name.
    pub name: String,
    /// The arguments.
    pub arguments: Vec<Expression>,
    /// The columns kept; all of them where none is named.
    pub yields: Vec<YieldItem>,
    /// Where it was written.
    pub range: SourceRange,
}

/// One item of a `SET`.
#[derive(Debug, PartialEq, Eq)]
pub enum SetItem {
    /// Assigns a property.
    Property {
        /// The variable of the record.
        variable: String,
        /// The key.
        key: String,
        /// The value.
        value: Expression,
    },
    /// Adds a label.
    Label {
        /// The variable of the node.
        variable: String,
        /// The label.
        label: String,
    },
}

/// One item of a `REMOVE`.
#[derive(Debug, PartialEq, Eq)]
pub enum RemoveItem {
    /// Removes a property.
    Property {
        /// The variable of the record.
        variable: String,
        /// The key.
        key: String,
    },
    /// Removes a label.
    Label {
        /// The variable of the node.
        variable: String,
        /// The label.
        label: String,
    },
}

/// A clause.
#[derive(Debug, PartialEq, Eq)]
pub enum Clause {
    /// Finds what patterns describe.
    Match {
        /// Whether a row without a match is kept.
        optional: bool,
        /// The patterns.
        patterns: Vec<Pattern>,
        /// What a match must meet.
        predicate: Option<Expression>,
    },
    /// Makes rows of a list.
    Unwind {
        /// The list.
        list: Expression,
        /// The variable each item is bound to.
        variable: String,
    },
    /// Opens a new scope.
    With(Projection),
    /// Calls a procedure.
    Call(ProcedureCall),
    /// Creates what patterns describe.
    Create {
        /// The patterns.
        patterns: Vec<Pattern>,
        /// Where it was written.
        range: SourceRange,
    },
    /// Finds what a pattern describes, or creates it.
    Merge {
        /// The pattern.
        pattern: Pattern,
        /// Where it was written.
        range: SourceRange,
    },
    /// Assigns properties and adds labels.
    Assign {
        /// The items.
        items: Vec<SetItem>,
        /// Where it was written.
        range: SourceRange,
    },
    /// Removes properties and labels.
    Remove {
        /// The items.
        items: Vec<RemoveItem>,
        /// Where it was written.
        range: SourceRange,
    },
    /// Deletes records.
    Delete {
        /// Whether the relationships of a node are deleted with it.
        detach: bool,
        /// What is deleted.
        targets: Vec<Expression>,
        /// Where it was written.
        range: SourceRange,
    },
}

/// One part of a query, between unions.
#[derive(Debug, PartialEq, Eq)]
pub struct QueryPart {
    /// The clauses.
    pub clauses: Vec<Clause>,
    /// What it returns.
    pub result: Option<Projection>,
}

/// A query.
#[derive(Debug, PartialEq, Eq)]
pub struct Query {
    /// The parts.
    pub parts: Vec<QueryPart>,
    /// For each union, whether it keeps duplicates.
    pub union_all: Vec<bool>,
}

// -- Names -------------------------------------------------------------------------

/// What a column is called.
pub open spec fn name_of_column(item: ProjectionItem) -> Seq<char> {
    match item.alias {
        Some(alias) => alias@,
        None => item.text@,
    }
}

/// What the columns of a projection are called.
pub open spec fn names_of_columns(items: Seq<ProjectionItem>) -> Seq<Seq<char>> {
    Seq::new(items.len(), |i: int| name_of_column(items[i]))
}

/// What a column is called.
pub fn column_name(item: &ProjectionItem) -> (name: String)
    ensures
        name@ == name_of_column(*item),
{
    match &item.alias {
        Some(alias) => alias.clone(),
        None => item.text.clone(),
    }
}

/// What the columns of a projection are called.
pub fn column_names(projection: &Projection) -> (names: Vec<String>)
    ensures
        views(names@) == names_of_columns(projection.items@),
{
    let mut names: Vec<String> = Vec::new();
    let mut at: usize = 0;
    while at < projection.items.len()
        invariant
            at <= projection.items@.len(),
            views(names@) =~= names_of_columns(projection.items@).take(at as int),
        decreases projection.items@.len() - at,
    {
        let name = column_name(&projection.items[at]);
        proof {
            views_push(names@, name);
        }
        names.push(name);
        at = at + 1;
    }
    assert(views(names@) =~= names_of_columns(projection.items@));
    names
}

/// The name a yielded column is bound to.
pub open spec fn name_of_yield(item: YieldItem) -> Seq<char> {
    match item.alias {
        Some(alias) => alias@,
        None => item.column@,
    }
}

impl YieldItem {
    /// The name the column is bound to.
    pub fn bound_name(&self) -> (name: &str)
        ensures
            name@ == name_of_yield(*self),
    {
        match &self.alias {
            Some(alias) => alias.as_str(),
            None => self.column.as_str(),
        }
    }
}

// -- What a query needs ------------------------------------------------------------

/// A list with the first `count` labels that are not there yet.
pub open spec fn with_labels(before: Seq<Seq<char>>, labels: Seq<String>, count: int) -> Seq<
    Seq<char>,
>
    decreases count,
{
    if count <= 0 {
        before
    } else {
        crate::nost::convert::with_new(
            with_labels(before, labels, count - 1),
            labels[count - 1]@,
        )
    }
}

/// A list with the labels of the first `count` steps that are not there yet.
pub open spec fn with_steps(
    before: Seq<Seq<char>>,
    steps: Seq<(RelationshipPattern, NodePattern)>,
    count: int,
) -> Seq<Seq<char>>
    decreases count,
{
    if count <= 0 {
        before
    } else {
        let labels = steps[count - 1].1.labels@;
        with_labels(with_steps(before, steps, count - 1), labels, labels.len() as int)
    }
}

/// A list with the labels of the first `count` patterns that are not there yet.
pub open spec fn with_patterns(before: Seq<Seq<char>>, patterns: Seq<Pattern>, count: int) -> Seq<
    Seq<char>,
>
    decreases count,
{
    if count <= 0 {
        before
    } else {
        let pattern = patterns[count - 1];
        let start = with_labels(
            with_patterns(before, patterns, count - 1),
            pattern.start.labels@,
            pattern.start.labels@.len() as int,
        );
        with_steps(start, pattern.steps@, pattern.steps@.len() as int)
    }
}

/// A list with the labels the first `count` clauses look for that are not there yet.
pub open spec fn with_clauses(before: Seq<Seq<char>>, clauses: Seq<Clause>, count: int) -> Seq<
    Seq<char>,
>
    decreases count,
{
    if count <= 0 {
        before
    } else {
        let earlier = with_clauses(before, clauses, count - 1);
        match clauses[count - 1] {
            Clause::Match { patterns, .. } => with_patterns(
                earlier,
                patterns@,
                patterns@.len() as int,
            ),
            _ => earlier,
        }
    }
}

/// The labels the first `count` parts look for.
pub open spec fn labels_of_parts(parts: Seq<QueryPart>, count: int) -> Seq<Seq<char>>
    decreases count,
{
    if count <= 0 {
        Seq::empty()
    } else {
        let clauses = parts[count - 1].clauses@;
        with_clauses(labels_of_parts(parts, count - 1), clauses, clauses.len() as int)
    }
}

fn add_text(texts: &mut Vec<String>, text: &str)
    ensures
        views(final(texts)@) == crate::nost::convert::with_new(views(old(texts)@), text@),
{
    let ghost models = views(texts@);
    let mut at: usize = 0;
    while at < texts.len()
        invariant
            at <= texts@.len(),
            models == views(texts@),
            views(old(texts)@) == models,
            forall|i: int| 0 <= i < at ==> #[trigger] models[i] != text@,
        decreases texts@.len() - at,
    {
        assert(models[at as int] == texts@[at as int]@);
        if same(texts[at].as_str(), text) {
            assert(models.contains(text@));
            return;
        }
        at = at + 1;
    }
    assert(!models.contains(text@));
    let copy = text.to_owned();
    proof {
        views_push(texts@, copy);
    }
    texts.push(copy);
}

fn add_labels(texts: &mut Vec<String>, labels: &Vec<String>)
    ensures
        views(final(texts)@) == with_labels(
            views(old(texts)@),
            labels@,
            labels@.len() as int,
        ),
{
    let mut at: usize = 0;
    while at < labels.len()
        invariant
            at <= labels@.len(),
            views(texts@) == with_labels(views(old(texts)@), labels@, at as int),
        decreases labels@.len() - at,
    {
        add_text(texts, labels[at].as_str());
        at = at + 1;
    }
}

fn add_patterns(texts: &mut Vec<String>, patterns: &Vec<Pattern>)
    ensures
        views(final(texts)@) == with_patterns(
            views(old(texts)@),
            patterns@,
            patterns@.len() as int,
        ),
{
    let mut at: usize = 0;
    while at < patterns.len()
        invariant
            at <= patterns@.len(),
            views(texts@) == with_patterns(views(old(texts)@), patterns@, at as int),
        decreases patterns@.len() - at,
    {
        let pattern = &patterns[at];
        add_labels(texts, &pattern.start.labels);
        let ghost first = views(texts@);
        let mut step: usize = 0;
        while step < pattern.steps.len()
            invariant
                step <= pattern.steps@.len(),
                views(texts@) == with_steps(first, pattern.steps@, step as int),
            decreases pattern.steps@.len() - step,
        {
            add_labels(texts, &pattern.steps[step].1.labels);
            step = step + 1;
        }
        at = at + 1;
    }
}

/// Whether one of the first `count` clauses writes.
pub open spec fn writes_in(clauses: Seq<Clause>, count: int) -> bool
    decreases count,
{
    count > 0 && (writes_in(clauses, count - 1) || match clauses[count - 1] {
        Clause::Create { .. } => true,
        Clause::Merge { .. } => true,
        Clause::Assign { .. } => true,
        Clause::Remove { .. } => true,
        Clause::Delete { .. } => true,
        _ => false,
    })
}

/// Whether one of the first `count` parts writes.
pub open spec fn parts_write(parts: Seq<QueryPart>, count: int) -> bool
    decreases count,
{
    count > 0 && (parts_write(parts, count - 1) || writes_in(
        parts[count - 1].clauses@,
        parts[count - 1].clauses@.len() as int,
    ))
}

impl Query {
    /// The labels the query looks for, each once. What it creates is not among them.
    pub fn required_labels(&self) -> (labels: Vec<String>)
        ensures
            views(labels@) == labels_of_parts(self.parts@, self.parts@.len() as int),
    {
        let mut labels: Vec<String> = Vec::new();
        assert(views(labels@) =~= Seq::<Seq<char>>::empty());
        let mut at: usize = 0;
        while at < self.parts.len()
            invariant
                at <= self.parts@.len(),
                views(labels@) == labels_of_parts(self.parts@, at as int),
            decreases self.parts@.len() - at,
        {
            let clauses = &self.parts[at].clauses;
            let ghost first = views(labels@);
            let mut place: usize = 0;
            while place < clauses.len()
                invariant
                    place <= clauses@.len(),
                    views(labels@) == with_clauses(first, clauses@, place as int),
                decreases clauses@.len() - place,
            {
                match &clauses[place] {
                    Clause::Match { patterns, .. } => {
                        add_patterns(&mut labels, patterns);
                    }
                    _ => {}
                }
                place = place + 1;
            }
            at = at + 1;
        }
        labels
    }

    /// Whether the query writes.
    pub fn is_writing(&self) -> (answer: bool)
        ensures
            answer == parts_write(self.parts@, self.parts@.len() as int),
    {
        let mut answer = false;
        let mut at: usize = 0;
        while at < self.parts.len()
            invariant
                at <= self.parts@.len(),
                answer == parts_write(self.parts@, at as int),
            decreases self.parts@.len() - at,
        {
            let clauses = &self.parts[at].clauses;
            let mut writes = false;
            let mut place: usize = 0;
            while place < clauses.len()
                invariant
                    place <= clauses@.len(),
                    writes == writes_in(clauses@, place as int),
                decreases clauses@.len() - place,
            {
                match &clauses[place] {
                    Clause::Create { .. } => {
                        writes = true;
                    }
                    Clause::Merge { .. } => {
                        writes = true;
                    }
                    Clause::Assign { .. } => {
                        writes = true;
                    }
                    Clause::Remove { .. } => {
                        writes = true;
                    }
                    Clause::Delete { .. } => {
                        writes = true;
                    }
                    _ => {}
                }
                place = place + 1;
            }
            if writes {
                answer = true;
            }
            at = at + 1;
        }
        answer
    }
}

} // verus!
