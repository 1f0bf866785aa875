//! What each clause reads: the rows that a match, a list or a call makes, and the values
//! that a write is given.

use crate::bindings::Bindings;
use crate::cancel::ShouldStop;
use crate::copies::Copied;
use crate::cypher::name_of_yield;
use crate::cypher::semantic;
use crate::cypher::Expression;
use crate::cypher::Pattern;
use crate::cypher::ProcedureCall;
use crate::cypher::QueryError;
use crate::cypher::QueryErrorModel;
use crate::cypher::RelationshipPattern;
use crate::cypher::NodePattern;
use crate::cypher::SetItem;
use crate::cypher::YieldItem;
use crate::diagnostic::DiagnosticCode;
use crate::evaluate::evaluated;
use crate::evaluate::evaluated_from;
use crate::evaluate::holder;
use crate::evaluate::Executor;
use crate::evaluate::World;
use crate::evidence::SourceRange;
use crate::matching::matched;
use crate::matching::Scope;
use crate::mutate::goes_on;
use crate::mutate::Minted;
use crate::mutate::map_model;
use crate::mutate::MapValues;
use crate::mutate::PatternModel;
use crate::mutate::PatternValues;
use crate::nost::convert::starts_with;
use crate::procedure::lookup;
use crate::procedure::procedure_named;
use crate::procedure::procedure_rows;
use crate::procedure::row_models;
use crate::procedure::run;
use crate::procedure::texts_of;
use crate::procedure::unknown_procedure;
use crate::procedure::Procedure;
use crate::procedure::ProcedureModel;
use crate::text::joined;
use crate::text::same;
use crate::text::view_of;
use crate::text::views;
use crate::text::views_push;
use crate::value::copy_value;
use crate::value::QueryModel;
use crate::value::QueryValue;
use vstd::prelude::*;
use vstd::string::StringExecFns;

verus! {

/// What reading comes to, or why it was refused.
pub type Read<T> = Result<T, QueryErrorModel>;

// -- Fate --------------------------------------------------------------------------

/// What a query cannot decide itself: the identifiers that are minted for it, and where,
/// counted in the times it asks, and why it is told to stop.
pub struct Fate {
    /// The identifiers that are minted, one after the other.
    pub minted: Minted,
    /// The question at which it is told to stop, and why.
    pub stop: Option<(int, Seq<char>)>,
}

/// What is said where a query is told to stop.
///
/// The range is the start, because nothing in the query is wrong.
pub open spec fn cancelled(reason: Seq<char>) -> QueryErrorModel {
    QueryErrorModel {
        code: DiagnosticCode::QueryCancelled,
        message: reason,
        range: SourceRange::at_origin(),
    }
}

/// What is answered where a query asks, as the question after `asked` others, whether to
/// stop.
pub open spec fn asks(fate: Fate, asked: int) -> Option<QueryErrorModel> {
    match fate.stop {
        Some((at, reason)) => if at == asked {
            Some(cancelled(reason))
        } else {
            None
        },
        None => None,
    }
}

/// What is known of a fate so far.
pub struct Known {
    /// The identifiers minted so far.
    pub minted: Seq<Seq<u8>>,
    /// How often it was asked whether to stop.
    pub asked: int,
    /// Why it is told to stop, if it is.
    pub stop: Option<Seq<char>>,
}

/// Whether a fate is one that what is known so far leads to: it goes on from the identifiers
/// minted so far, and is told to stop later where there is more to do, else as it was told.
pub open spec fn leads(fate: Fate, known: Known, more: bool) -> bool {
    &&& goes_on(fate.minted, known.minted)
    &&& if more {
        fate.stop matches Some((at, _)) ==> at >= known.asked
    } else {
        fate.stop == match known.stop {
            Some(reason) => Some((known.asked, reason)),
            None => None,
        }
    }
}

/// Whether more is known than before.
pub open spec fn follows(first: Known, second: Known) -> bool {
    starts_with(second.minted, first.minted) && first.asked <= second.asked
}

/// A fate that a later point leads to is one that an earlier point leads to.
pub broadcast proof fn leads_before(fate: Fate, first: Known, second: Known, more: bool)
    requires
        #[trigger] leads(fate, second, more),
        #[trigger] follows(first, second),
    ensures
        leads(fate, first, true),
{
    crate::mutate::goes_on_before(fate.minted, first.minted, second.minted);
}

/// What follows what follows follows.
pub broadcast proof fn follows_on(first: Known, second: Known, third: Known)
    requires
        #[trigger] follows(first, second),
        #[trigger] follows(second, third),
    ensures
        follows(first, third),
{
    crate::mutate::starts_chain(first.minted, second.minted, third.minted);
}

/// Whether what is known later is what was answered since: `should_stop` may have said no
/// where there were more questions, and where there is an end it may have said yes, and
/// `reason` that.
pub open spec fn told<C: ShouldStop + ?Sized>(cancel: &C, first: Known, second: Known) -> bool {
    &&& second.asked > first.asked ==> call_ensures(C::should_stop, (cancel,), false)
    &&& second.stop matches Some(why) ==> stops_for(cancel, why)
}

/// Whether something may say to stop, and may give such a reason for it.
pub open spec fn stops_for<C: ShouldStop + ?Sized>(cancel: &C, why: Seq<char>) -> bool {
    &&& call_ensures(C::should_stop, (cancel,), true)
    &&& exists|text: String| #[trigger] call_ensures(C::reason, (cancel,), text) && text@ == why
}

/// What becomes of a query that was answered: it goes on, or is refused with the reason it
/// was given to stop.
pub fn heed(answer: Option<String>) -> (made: Result<(), QueryError>)
    ensures
        match answer {
            None => made is Ok,
            Some(reason) => made matches Err(error) && error@ == cancelled(reason@),
        },
{
    match answer {
        None => Ok(()),
        Some(reason) => Err(
            QueryError::at(DiagnosticCode::QueryCancelled, reason, SourceRange::origin()),
        ),
    }
}

/// Asks whether to stop.
pub(crate) fn stop_if_asked<C: ShouldStop + ?Sized>(cancel: &C, Ghost(known): Ghost<Known>) -> (made:
    (Result<(), QueryError>, Ghost<Known>))
    requires
        known.stop is None,
    ensures
        follows(known, made.1@),
        made.1@.minted == known.minted,
        told(cancel, known, made.1@),
        match made.0 {
            Ok(_) => {
                &&& call_ensures(C::should_stop, (cancel,), false)
                &&& made.1@ == (Known { asked: known.asked + 1, ..known })
            },
            Err(error) => {
                &&& made.1@.asked == known.asked
                &&& made.1@.stop matches Some(why) && error@ == cancelled(why)
            },
        },
        forall|fate: Fate| #[trigger]
            leads(fate, made.1@, made.0 is Ok) ==> asks(fate, known.asked) == (match made.0 {
                Ok(_) => None,
                Err(error) => Some(error@),
            }),
{
    if cancel.should_stop() {
        let reason = cancel.reason();
        let ghost ended = Known { stop: Some(reason@), ..known };
        (heed(Some(reason)), Ghost(ended))
    } else {
        (heed(None), Ghost(Known { asked: known.asked + 1, ..known }))
    }
}

// -- Matching rows -----------------------------------------------------------------

/// What a pattern makes of the scopes from `at` on, behind those before them.
pub open spec fn all_matched(
    world: World,
    pattern: Pattern,
    scopes: Seq<Scope>,
    at: int,
    before: Seq<Scope>,
) -> Read<Seq<Scope>>
    decreases scopes.len() - at,
{
    if at < 0 || at >= scopes.len() {
        Ok(before)
    } else {
        match matched(world, pattern, scopes[at]) {
            Err(wrong) => Err(wrong),
            Ok(found) => all_matched(world, pattern, scopes, at + 1, before + found),
        }
    }
}

/// What the patterns from `at` on make of scopes.
pub open spec fn patterns_matched(
    world: World,
    patterns: Seq<Pattern>,
    at: int,
    scopes: Seq<Scope>,
) -> Read<Seq<Scope>>
    decreases patterns.len() - at,
{
    if at < 0 || at >= patterns.len() {
        Ok(scopes)
    } else {
        match all_matched(world, patterns[at], scopes, 0, Seq::empty()) {
            Err(wrong) => Err(wrong),
            Ok(grown) => patterns_matched(world, patterns, at + 1, grown),
        }
    }
}

/// The scopes from `at` on that meet a predicate, behind those before them.
pub open spec fn scopes_kept(
    world: World,
    predicate: Expression,
    scopes: Seq<Scope>,
    at: int,
    before: Seq<Scope>,
) -> Read<Seq<Scope>>
    decreases scopes.len() - at,
{
    if at < 0 || at >= scopes.len() {
        Ok(before)
    } else {
        match evaluated(world, predicate, scopes[at], None) {
            Err(wrong) => Err(wrong),
            Ok(value) => scopes_kept(
                world,
                predicate,
                scopes,
                at + 1,
                if value.truthy() {
                    before.push(scopes[at])
                } else {
                    before
                },
            ),
        }
    }
}

/// A scope in which a variable, where there is one and nothing is bound to it, is null.
pub open spec fn or_null(scope: Scope, variable: Option<String>) -> Scope {
    match variable {
        None => scope,
        Some(name) => if scope.contains_key(name@) {
            scope
        } else {
            scope.insert(name@, QueryModel::Null)
        },
    }
}

/// A scope in which what the first `count` steps would bind is at least null.
pub open spec fn steps_or_null(
    scope: Scope,
    steps: Seq<(RelationshipPattern, NodePattern)>,
    count: int,
) -> Scope
    decreases count,
{
    if count <= 0 {
        scope
    } else {
        or_null(
            or_null(steps_or_null(scope, steps, count - 1), steps[count - 1].0.variable),
            steps[count - 1].1.variable,
        )
    }
}

/// A scope in which what the first `count` patterns would bind is at least null.
pub open spec fn patterns_or_null(scope: Scope, patterns: Seq<Pattern>, count: int) -> Scope
    decreases count,
{
    if count <= 0 {
        scope
    } else {
        let pattern = patterns[count - 1];
        steps_or_null(
            or_null(
                or_null(patterns_or_null(scope, patterns, count - 1), pattern.path_variable),
                pattern.start.variable,
            ),
            pattern.steps@,
            pattern.steps@.len() as int,
        )
    }
}

/// The matches of one row that meet the predicate, if there is one.
pub open spec fn row_expanded(
    world: World,
    patterns: Seq<Pattern>,
    predicate: Option<Expression>,
    row: Scope,
) -> Read<Seq<Scope>> {
    match patterns_matched(world, patterns, 0, seq![row]) {
        Err(wrong) => Err(wrong),
        Ok(expanded) => match predicate {
            None => Ok(expanded),
            Some(condition) => scopes_kept(world, condition, expanded, 0, Seq::empty()),
        },
    }
}

/// What a match makes of one row. An unmatched optional row stays, and what the patterns
/// would have bound is null in it.
pub open spec fn row_matched(
    world: World,
    optional: bool,
    patterns: Seq<Pattern>,
    predicate: Option<Expression>,
    row: Scope,
) -> Read<Seq<Scope>> {
    match row_expanded(world, patterns, predicate, row) {
        Err(wrong) => Err(wrong),
        Ok(expanded) => if expanded.len() == 0 && optional {
            Ok(seq![patterns_or_null(row, patterns, patterns.len() as int)])
        } else {
            Ok(expanded)
        },
    }
}

/// What a match makes of the rows from `at` on, behind those before them. It asks whether
/// to stop before each.
pub open spec fn rows_matched(
    world: World,
    optional: bool,
    patterns: Seq<Pattern>,
    predicate: Option<Expression>,
    rows: Seq<Scope>,
    at: int,
    asked: int,
    fate: Fate,
    before: Seq<Scope>,
) -> Read<Seq<Scope>>
    decreases rows.len() - at,
{
    if at < 0 || at >= rows.len() {
        Ok(before)
    } else {
        match asks(fate, asked + at) {
            Some(stop) => Err(stop),
            None => match row_matched(world, optional, patterns, predicate, rows[at]) {
                Err(wrong) => Err(wrong),
                Ok(found) => rows_matched(
                    world,
                    optional,
                    patterns,
                    predicate,
                    rows,
                    at + 1,
                    asked,
                    fate,
                    before + found,
                ),
            },
        }
    }
}

fn bind_null(scope: &mut Bindings, variable: &Option<String>)
    ensures
        final(scope)@ == or_null(old(scope)@, *variable),
{
    match variable {
        None => {}
        Some(name) => {
            let missing = scope.get(name.as_str()).is_none();
            if missing {
                scope.insert(name.clone(), QueryValue::Null);
            }
        }
    }
}

fn bind_nulls(row: &Bindings, patterns: &Vec<Pattern>) -> (scope: Bindings)
    ensures
        scope@ == patterns_or_null(row@, patterns@, patterns@.len() as int),
{
    let mut scope = row.copied();
    let mut at: usize = 0;
    while at < patterns.len()
        invariant
            at <= patterns@.len(),
            scope@ == patterns_or_null(row@, patterns@, at as int),
        decreases patterns@.len() - at,
    {
        let pattern = &patterns[at];
        bind_null(&mut scope, &pattern.path_variable);
        bind_null(&mut scope, &pattern.start.variable);
        let ghost first = scope@;
        let mut step: usize = 0;
        while step < pattern.steps.len()
            invariant
                step <= pattern.steps@.len(),
                scope@ == steps_or_null(first, pattern.steps@, step as int),
            decreases pattern.steps@.len() - step,
        {
            bind_null(&mut scope, &pattern.steps[step].0.variable);
            bind_null(&mut scope, &pattern.steps[step].1.variable);
            step = step + 1;
        }
        at = at + 1;
    }
    scope
}

/// The models of two lists one behind the other.
pub(crate) proof fn views_joined<T: View>(left: Seq<T>, right: Seq<T>)
    ensures
        views(left + right) == views(left) + views(right),
{
    assert(views(left + right) =~= views(left) + views(right));
}

fn append_rows(rows: &mut Vec<Bindings>, more: Vec<Bindings>)
    ensures
        views(final(rows)@) == views(old(rows)@) + views(more@),
{
    let mut rest = more;
    proof {
        views_joined(rows@, rest@);
    }
    rows.append(&mut rest);
}

impl<'a> Executor<'a> {
    fn match_all(&self, pattern: &Pattern, scopes: &Vec<Bindings>) -> (made: Result<
        Vec<Bindings>,
        QueryError,
    >)
        requires
            self@.linked.len() < u32::MAX,
        ensures
            match made {
                Ok(found) => all_matched(
                    self@,
                    *pattern,
                    views(scopes@),
                    0,
                    Seq::empty(),
                ) matches Ok(model) && model == views(found@),
                Err(error) => all_matched(
                    self@,
                    *pattern,
                    views(scopes@),
                    0,
                    Seq::empty(),
                ) matches Err(wrong) && wrong == error@,
            },
    {
        let ghost world = self@;
        let ghost models = views(scopes@);
        let mut grown: Vec<Bindings> = Vec::new();
        assert(views(grown@) =~= Seq::<Scope>::empty());
        let mut at: usize = 0;
        while at < scopes.len()
            invariant
                at <= scopes@.len(),
                world == self@,
                world.linked.len() < u32::MAX,
                models == views(scopes@),
                all_matched(world, *pattern, models, 0, Seq::empty()) == all_matched(
                    world,
                    *pattern,
                    models,
                    at as int,
                    views(grown@),
                ),
            decreases scopes@.len() - at,
        {
            assert(models[at as int] == scopes@[at as int]@);
            match self.match_pattern(pattern, &scopes[at]) {
                Err(error) => {
                    return Err(error);
                }
                Ok(found) => {
                    append_rows(&mut grown, found);
                }
            }
            at = at + 1;
        }
        Ok(grown)
    }

    fn keep_scopes(&self, predicate: &Expression, scopes: &Vec<Bindings>) -> (made: Result<
        Vec<Bindings>,
        QueryError,
    >)
        ensures
            match made {
                Ok(kept) => scopes_kept(
                    self@,
                    *predicate,
                    views(scopes@),
                    0,
                    Seq::empty(),
                ) matches Ok(model) && model == views(kept@),
                Err(error) => scopes_kept(
                    self@,
                    *predicate,
                    views(scopes@),
                    0,
                    Seq::empty(),
                ) matches Err(wrong) && wrong == error@,
            },
    {
        let ghost world = self@;
        let ghost models = views(scopes@);
        let mut kept: Vec<Bindings> = Vec::new();
        assert(views(kept@) =~= Seq::<Scope>::empty());
        let mut at: usize = 0;
        while at < scopes.len()
            invariant
                at <= scopes@.len(),
                world == self@,
                models == views(scopes@),
                scopes_kept(world, *predicate, models, 0, Seq::empty()) == scopes_kept(
                    world,
                    *predicate,
                    models,
                    at as int,
                    views(kept@),
                ),
            decreases scopes@.len() - at,
        {
            assert(models[at as int] == scopes@[at as int]@);
            match self.evaluate(predicate, &scopes[at]) {
                Err(error) => {
                    return Err(error);
                }
                Ok(value) => {
                    if value.is_truthy() {
                        let scope = scopes[at].copied();
                        proof {
                            views_push(kept@, scope);
                        }
                        kept.push(scope);
                    }
                }
            }
            at = at + 1;
        }
        Ok(kept)
    }

    fn match_row(
        &self,
        optional: bool,
        patterns: &Vec<Pattern>,
        predicate: &Option<Expression>,
        row: &Bindings,
    ) -> (made: Result<Vec<Bindings>, QueryError>)
        requires
            self@.linked.len() < u32::MAX,
        ensures
            match made {
                Ok(found) => row_matched(
                    self@,
                    optional,
                    patterns@,
                    *predicate,
                    row@,
                ) matches Ok(model) && model == views(found@),
                Err(error) => row_matched(
                    self@,
                    optional,
                    patterns@,
                    *predicate,
                    row@,
                ) matches Err(wrong) && wrong == error@,
            },
    {
        let ghost world = self@;
        let mut expanded: Vec<Bindings> = Vec::new();
        expanded.push(row.copied());
        assert(views(expanded@) =~= seq![row@]);
        let mut at: usize = 0;
        while at < patterns.len()
            invariant
                at <= patterns@.len(),
                world == self@,
                world.linked.len() < u32::MAX,
                patterns_matched(world, patterns@, 0, seq![row@]) == patterns_matched(
                    world,
                    patterns@,
                    at as int,
                    views(expanded@),
                ),
            decreases patterns@.len() - at,
        {
            match self.match_all(&patterns[at], &expanded) {
                Err(error) => {
                    return Err(error);
                }
                Ok(grown) => {
                    expanded = grown;
                }
            }
            at = at + 1;
        }
        match predicate {
            None => {}
            Some(condition) => match self.keep_scopes(condition, &expanded) {
                Err(error) => {
                    return Err(error);
                }
                Ok(kept) => {
                    expanded = kept;
                }
            },
        }
        assert(views(expanded@).len() == expanded@.len());
        if expanded.len() == 0 && optional {
            let mut only: Vec<Bindings> = Vec::new();
            only.push(bind_nulls(row, patterns));
            assert(views(only@) =~= seq![
                patterns_or_null(row@, patterns@, patterns@.len() as int),
            ]);
            Ok(only)
        } else {
            Ok(expanded)
        }
    }

    /// Runs a `MATCH`.
    pub(crate) fn run_match<C: ShouldStop + ?Sized>(
        &self,
        optional: bool,
        patterns: &Vec<Pattern>,
        predicate: &Option<Expression>,
        rows: &Vec<Bindings>,
        cancel: &C,
        Ghost(known): Ghost<Known>,
    ) -> (made: (Result<Vec<Bindings>, QueryError>, Ghost<Known>))
        requires
            self@.linked.len() < u32::MAX,
            known.stop is None,
        ensures
            follows(known, made.1@),
            made.1@.minted == known.minted,
            told(cancel, known, made.1@),
            match made.0 {
                Ok(found) => {
                    &&& made.1@ == (Known { asked: known.asked + rows@.len(), ..known })
                    &&& forall|fate: Fate| #[trigger]
                        leads(fate, made.1@, true) ==> rows_matched(
                            self@,
                            optional,
                            patterns@,
                            *predicate,
                            views(rows@),
                            0,
                            known.asked,
                            fate,
                            Seq::empty(),
                        ) == Ok::<_, QueryErrorModel>(views(found@))
                },
                Err(error) => forall|fate: Fate| #[trigger]
                    leads(fate, made.1@, false) ==> rows_matched(
                        self@,
                        optional,
                        patterns@,
                        *predicate,
                        views(rows@),
                        0,
                        known.asked,
                        fate,
                        Seq::empty(),
                    ) == Err::<Seq<Scope>, _>(error@),
            },
    {
        broadcast use {leads_before, follows_on};

        let ghost world = self@;
        let ghost models = views(rows@);
        let ghost mut here = known;
        let mut next: Vec<Bindings> = Vec::new();
        assert(views(next@) =~= Seq::<Scope>::empty());
        let mut at: usize = 0;
        while at < rows.len()
            invariant
                at <= rows@.len(),
                world == self@,
                world.linked.len() < u32::MAX,
                models == views(rows@),
                known.stop is None,
                here == (Known { asked: known.asked + at, ..known }),
                follows(known, here),
                told(cancel, known, here),
                forall|fate: Fate| #[trigger]
                    leads(fate, here, true) ==> rows_matched(
                        world,
                        optional,
                        patterns@,
                        *predicate,
                        models,
                        0,
                        known.asked,
                        fate,
                        Seq::empty(),
                    ) == rows_matched(
                        world,
                        optional,
                        patterns@,
                        *predicate,
                        models,
                        at as int,
                        known.asked,
                        fate,
                        views(next@),
                    ),
            decreases rows@.len() - at,
        {
            broadcast use {leads_before, follows_on};

            assert(models[at as int] == rows@[at as int]@);
            let (stop, Ghost(later)) = stop_if_asked(cancel, Ghost(here));
            match stop {
                Err(error) => {
                    return (Err(error), Ghost(later));
                }
                Ok(_) => {}
            }
            match self.match_row(optional, patterns, predicate, &rows[at]) {
                Err(error) => {
                    assert(follows(later, later));
                    return (Err(error), Ghost(later));
                }
                Ok(found) => {
                    append_rows(&mut next, found);
                }
            }
            proof {
                here = later;
            }
            at = at + 1;
        }
        (Ok(next), Ghost(here))
    }
}

// -- Lists and scopes --------------------------------------------------------------

/// A row for each item of a list.
pub open spec fn row_per_item(row: Scope, variable: Seq<char>, items: Seq<QueryModel>) -> Seq<Scope> {
    Seq::new(items.len(), |i: int| row.insert(variable, items[i]))
}

/// What an `UNWIND` makes of the rows from `at` on, behind those before them. A value that
/// is no list makes no row.
pub open spec fn rows_unwound(
    world: World,
    list: Expression,
    variable: Seq<char>,
    rows: Seq<Scope>,
    at: int,
    before: Seq<Scope>,
) -> Read<Seq<Scope>>
    decreases rows.len() - at,
{
    if at < 0 || at >= rows.len() {
        Ok(before)
    } else {
        match evaluated(world, list, rows[at], None) {
            Err(wrong) => Err(wrong),
            Ok(QueryModel::List(items)) => rows_unwound(
                world,
                list,
                variable,
                rows,
                at + 1,
                before + row_per_item(rows[at], variable, items),
            ),
            Ok(_) => rows_unwound(world, list, variable, rows, at + 1, before),
        }
    }
}

/// A scope that holds the columns of a row and nothing else.
pub open spec fn scope_of_row(names: Seq<Seq<char>>, row: Seq<QueryModel>) -> Scope {
    crate::projection::with_columns(
        Map::empty(),
        names,
        row,
        if names.len() <= row.len() {
            names.len() as int
        } else {
            row.len() as int
        },
    )
}

/// A scope for each row.
pub open spec fn scopes_of_rows(names: Seq<Seq<char>>, rows: Seq<Seq<QueryModel>>) -> Seq<Scope> {
    Seq::new(rows.len(), |i: int| scope_of_row(names, rows[i]))
}

fn rows_for_items(row: &Bindings, variable: &String, items: &Vec<QueryValue>) -> (rows: Vec<Bindings>)
    ensures
        views(rows@) == row_per_item(row@, variable@, views(items@)),
{
    let ghost all = row_per_item(row@, variable@, views(items@));
    let mut rows: Vec<Bindings> = Vec::new();
    let mut at: usize = 0;
    while at < items.len()
        invariant
            at <= items@.len(),
            all == row_per_item(row@, variable@, views(items@)),
            views(rows@) =~= all.take(at as int),
        decreases items@.len() - at,
    {
        let mut scope = row.copied();
        assert(views(items@)[at as int] == items@[at as int]@);
        scope.insert(variable.clone(), copy_value(&items[at]));
        proof {
            views_push(rows@, scope);
        }
        rows.push(scope);
        at = at + 1;
    }
    assert(all.take(all.len() as int) =~= all);
    rows
}

/// Opens a new scope for each row.
pub(crate) fn open_scopes(names: &Vec<String>, rows: &Vec<Vec<QueryValue>>) -> (scopes: Vec<Bindings>)
    ensures
        views(scopes@) == scopes_of_rows(views(names@), row_models(rows@)),
{
    let ghost all = scopes_of_rows(views(names@), row_models(rows@));
    let mut scopes: Vec<Bindings> = Vec::new();
    let mut at: usize = 0;
    while at < rows.len()
        invariant
            at <= rows@.len(),
            all == scopes_of_rows(views(names@), row_models(rows@)),
            views(scopes@) =~= all.take(at as int),
        decreases rows@.len() - at,
    {
        let row = &rows[at];
        assert(row_models(rows@)[at as int] == views(row@));
        let mut scope = Bindings::new();
        let mut place: usize = 0;
        while place < row.len() && place < names.len()
            invariant
                place <= row@.len(),
                place <= names@.len(),
                scope@ == crate::projection::with_columns(
                    Map::empty(),
                    views(names@),
                    views(row@),
                    place as int,
                ),
            decreases row@.len() - place,
        {
            assert(views(names@)[place as int] == names@[place as int]@);
            assert(views(row@)[place as int] == row@[place as int]@);
            scope.insert(names[place].clone(), copy_value(&row[place]));
            place = place + 1;
        }
        proof {
            views_push(scopes@, scope);
        }
        scopes.push(scope);
        at = at + 1;
    }
    assert(all.take(all.len() as int) =~= all);
    scopes
}

impl<'a> Executor<'a> {
    /// Runs an `UNWIND`.
    pub(crate) fn run_unwind(&self, list: &Expression, variable: &String, rows: &Vec<Bindings>) -> (made:
        Result<Vec<Bindings>, QueryError>)
        ensures
            match made {
                Ok(found) => rows_unwound(
                    self@,
                    *list,
                    variable@,
                    views(rows@),
                    0,
                    Seq::empty(),
                ) matches Ok(model) && model == views(found@),
                Err(error) => rows_unwound(
                    self@,
                    *list,
                    variable@,
                    views(rows@),
                    0,
                    Seq::empty(),
                ) matches Err(wrong) && wrong == error@,
            },
    {
        let ghost world = self@;
        let ghost models = views(rows@);
        let mut next: Vec<Bindings> = Vec::new();
        assert(views(next@) =~= Seq::<Scope>::empty());
        let mut at: usize = 0;
        while at < rows.len()
            invariant
                at <= rows@.len(),
                world == self@,
                models == views(rows@),
                rows_unwound(world, *list, variable@, models, 0, Seq::empty()) == rows_unwound(
                    world,
                    *list,
                    variable@,
                    models,
                    at as int,
                    views(next@),
                ),
            decreases rows@.len() - at,
        {
            assert(models[at as int] == rows@[at as int]@);
            match self.evaluate(list, &rows[at]) {
                Err(error) => {
                    return Err(error);
                }
                Ok(QueryValue::List(items)) => {
                    proof {
                        crate::value::list_model(items@);
                    }
                    append_rows(&mut next, rows_for_items(&rows[at], variable, &items));
                }
                Ok(_) => {}
            }
            at = at + 1;
        }
        Ok(next)
    }
}

// -- Calls -------------------------------------------------------------------------

/// The first `count` texts with commas between them.
pub open spec fn listed(texts: Seq<Seq<char>>, count: int) -> Seq<char>
    decreases count,
{
    if count <= 0 {
        Seq::empty()
    } else if count == 1 {
        texts[0]
    } else {
        listed(texts, count - 1) + ", "@ + texts[count - 1]
    }
}

/// Where a text first stands among texts, from `at` on.
pub open spec fn text_at(texts: Seq<Seq<char>>, text: Seq<char>, at: int) -> Option<int>
    decreases texts.len() - at,
{
    if at < 0 || at >= texts.len() {
        None
    } else if texts[at] == text {
        Some(at)
    } else {
        text_at(texts, text, at + 1)
    }
}

/// What is said of a column that a procedure does not yield.
pub open spec fn no_column(
    procedure: ProcedureModel,
    column: Seq<char>,
    range: SourceRange,
) -> QueryErrorModel {
    crate::cypher::meaningless(
        "`"@ + procedure.name + "` yields no column `"@ + column + "`; it yields "@ + listed(
            procedure.columns,
            procedure.columns.len() as int,
        ),
        range,
    )
}

/// The columns that the items from `at` on keep, each with its name, behind those before
/// them.
pub open spec fn columns_yielded(
    procedure: ProcedureModel,
    yields: Seq<YieldItem>,
    at: int,
    range: SourceRange,
    before: Seq<(int, Seq<char>)>,
) -> Read<Seq<(int, Seq<char>)>>
    decreases yields.len() - at,
{
    if at < 0 || at >= yields.len() {
        Ok(before)
    } else {
        match text_at(procedure.columns, yields[at].column@, 0) {
            None => Err(no_column(procedure, yields[at].column@, range)),
            Some(place) => columns_yielded(
                procedure,
                yields,
                at + 1,
                range,
                before.push((place, name_of_yield(yields[at]))),
            ),
        }
    }
}

/// The columns a call keeps, each with its name: all of them where none is named.
pub open spec fn columns_kept(
    procedure: ProcedureModel,
    yields: Seq<YieldItem>,
    range: SourceRange,
) -> Read<Seq<(int, Seq<char>)>> {
    if yields.len() == 0 {
        Ok(Seq::new(procedure.columns.len(), |i: int| (i, procedure.columns[i])))
    } else {
        columns_yielded(procedure, yields, 0, range, Seq::empty())
    }
}

/// A row with the first `count` kept columns of what a procedure produced.
pub open spec fn row_with(
    row: Scope,
    kept: Seq<(int, Seq<char>)>,
    produced: Seq<QueryModel>,
    count: int,
) -> Scope
    decreases count,
{
    if count <= 0 {
        row
    } else {
        let (place, name) = kept[count - 1];
        row_with(row, kept, produced, count - 1).insert(
            name,
            if 0 <= place < produced.len() {
                produced[place]
            } else {
                QueryModel::Null
            },
        )
    }
}

/// A row for each that a procedure produced.
pub open spec fn row_per_result(
    row: Scope,
    kept: Seq<(int, Seq<char>)>,
    produced: Seq<Seq<QueryModel>>,
) -> Seq<Scope> {
    Seq::new(produced.len(), |i: int| row_with(row, kept, produced[i], kept.len() as int))
}

/// What a call makes of the rows from `at` on, behind those before them. A row that the
/// procedure yields nothing for is dropped.
pub open spec fn rows_called(
    world: World,
    call: ProcedureCall,
    procedure: ProcedureModel,
    kept: Seq<(int, Seq<char>)>,
    rows: Seq<Scope>,
    at: int,
    before: Seq<Scope>,
) -> Read<Seq<Scope>>
    decreases rows.len() - at,
{
    if at < 0 || at >= rows.len() {
        Ok(before)
    } else {
        match evaluated_from(world, call.arguments@, 0, rows[at], None, Seq::empty()) {
            Err(wrong) => Err(wrong),
            Ok(arguments) => match procedure_rows(
                procedure,
                arguments,
                holder(world, arguments),
                world.context,
                call.range,
            ) {
                Err(wrong) => Err(wrong),
                Ok(produced) => rows_called(
                    world,
                    call,
                    procedure,
                    kept,
                    rows,
                    at + 1,
                    before + row_per_result(rows[at], kept, produced),
                ),
            },
        }
    }
}

/// The names of kept columns.
pub open spec fn kept_names(kept: Seq<(int, Seq<char>)>) -> Seq<Seq<char>> {
    Seq::new(kept.len(), |i: int| kept[i].1)
}

/// What a `CALL` comes to: the columns it yields and the rows.
pub open spec fn called_rows(world: World, call: ProcedureCall, rows: Seq<Scope>) -> Read<
    (Seq<Seq<char>>, Seq<Scope>),
> {
    match procedure_named(call.name@) {
        None => Err(unknown_procedure(call.name@, call.range)),
        Some(procedure) => match columns_kept(procedure, call.yields@, call.range) {
            Err(wrong) => Err(wrong),
            Ok(kept) => match rows_called(world, call, procedure, kept, rows, 0, Seq::empty()) {
                Err(wrong) => Err(wrong),
                Ok(found) => Ok((kept_names(kept), found)),
            },
        },
    }
}

spec fn kept_models(kept: Seq<(usize, String)>) -> Seq<(int, Seq<char>)> {
    Seq::new(kept.len(), |i: int| (kept[i].0 as int, kept[i].1@))
}

proof fn kept_models_push(kept: Seq<(usize, String)>, one: (usize, String))
    ensures
        kept_models(kept.push(one)) == kept_models(kept).push((one.0 as int, one.1@)),
{
    assert(kept_models(kept.push(one)) =~= kept_models(kept).push((one.0 as int, one.1@)));
}

fn list_texts(texts: &Vec<&'static str>) -> (text: String)
    ensures
        text@ == listed(texts_of(texts@), texts@.len() as int),
{
    let ghost models = texts_of(texts@);
    let mut text = String::new();
    let mut at: usize = 0;
    while at < texts.len()
        invariant
            at <= texts@.len(),
            models == texts_of(texts@),
            text@ == listed(models, at as int),
        decreases texts@.len() - at,
    {
        assert(models[at as int] == texts@[at as int]@);
        let ghost before = text@;
        if at > 0 {
            text.append(", ");
        }
        text.append(texts[at]);
        assert(at == 0 ==> text@ =~= models[0]);
        at = at + 1;
    }
    text
}

fn find_text(texts: &Vec<&'static str>, text: &str) -> (found: Option<usize>)
    ensures
        match found {
            Some(at) => text_at(texts_of(texts@), text@, 0) == Some(at as int),
            None => text_at(texts_of(texts@), text@, 0) is None,
        },
{
    let ghost models = texts_of(texts@);
    let mut at: usize = 0;
    while at < texts.len()
        invariant
            at <= texts@.len(),
            models == texts_of(texts@),
            text_at(models, text@, 0) == text_at(models, text@, at as int),
        decreases texts@.len() - at,
    {
        assert(models[at as int] == texts@[at as int]@);
        if same(texts[at], text) {
            return Some(at);
        }
        at = at + 1;
    }
    None
}

fn keep_columns(procedure: &Procedure, yields: &Vec<YieldItem>, range: SourceRange) -> (made: Result<
    Vec<(usize, String)>,
    QueryError,
>)
    ensures
        match made {
            Ok(kept) => columns_kept(procedure@, yields@, range) matches Ok(model) && model
                == kept_models(kept@),
            Err(error) => columns_kept(procedure@, yields@, range) matches Err(wrong) && wrong
                == error@,
        },
{
    let ghost columns = procedure@.columns;
    let mut kept: Vec<(usize, String)> = Vec::new();
    assert(kept_models(kept@) =~= Seq::<(int, Seq<char>)>::empty());
    if yields.len() == 0 {
        let ghost all = Seq::new(columns.len(), |i: int| (i, columns[i]));
        let mut at: usize = 0;
        while at < procedure.columns.len()
            invariant
                at <= procedure.columns@.len(),
                columns == texts_of(procedure.columns@),
                all == Seq::new(columns.len(), |i: int| (i, columns[i])),
                kept_models(kept@) =~= all.take(at as int),
            decreases procedure.columns@.len() - at,
        {
            assert(columns[at as int] == procedure.columns@[at as int]@);
            let one = (at, procedure.columns[at].to_owned());
            proof {
                kept_models_push(kept@, one);
            }
            kept.push(one);
            at = at + 1;
        }
        assert(all.take(all.len() as int) =~= all);
        return Ok(kept);
    }
    let mut at: usize = 0;
    while at < yields.len()
        invariant
            at <= yields@.len(),
            columns_yielded(procedure@, yields@, 0, range, Seq::empty()) == columns_yielded(
                procedure@,
                yields@,
                at as int,
                range,
                kept_models(kept@),
            ),
            yields@.len() > 0,
        decreases yields@.len() - at,
    {
        match find_text(&procedure.columns, yields[at].column.as_str()) {
            None => {
                let mut message = joined("`", procedure.name);
                message.append("` yields no column `");
                message.append(yields[at].column.as_str());
                message.append("`; it yields ");
                message.append(list_texts(&procedure.columns).as_str());
                return Err(semantic(message.as_str(), range));
            }
            Some(place) => {
                let one = (place, yields[at].bound_name().to_owned());
                proof {
                    kept_models_push(kept@, one);
                }
                kept.push(one);
            }
        }
        at = at + 1;
    }
    Ok(kept)
}

fn rows_for_results(row: &Bindings, kept: &Vec<(usize, String)>, produced: &Vec<Vec<QueryValue>>) -> (rows:
    Vec<Bindings>)
    ensures
        views(rows@) == row_per_result(row@, kept_models(kept@), row_models(produced@)),
{
    let ghost models = kept_models(kept@);
    let ghost all = row_per_result(row@, models, row_models(produced@));
    let mut rows: Vec<Bindings> = Vec::new();
    let mut at: usize = 0;
    while at < produced.len()
        invariant
            at <= produced@.len(),
            models == kept_models(kept@),
            all == row_per_result(row@, models, row_models(produced@)),
            views(rows@) =~= all.take(at as int),
        decreases produced@.len() - at,
    {
        let result = &produced[at];
        assert(row_models(produced@)[at as int] == views(result@));
        let mut scope = row.copied();
        let mut place: usize = 0;
        while place < kept.len()
            invariant
                place <= kept@.len(),
                models == kept_models(kept@),
                scope@ == row_with(row@, models, views(result@), place as int),
            decreases kept@.len() - place,
        {
            let one = &kept[place];
            assert(models[place as int] == (one.0 as int, one.1@));
            let value = if one.0 < result.len() {
                assert(views(result@)[one.0 as int] == result@[one.0 as int]@);
                copy_value(&result[one.0])
            } else {
                QueryValue::Null
            };
            scope.insert(one.1.clone(), value);
            place = place + 1;
        }
        proof {
            views_push(rows@, scope);
        }
        rows.push(scope);
        at = at + 1;
    }
    assert(all.take(all.len() as int) =~= all);
    rows
}

impl<'a> Executor<'a> {
    /// Runs a `CALL`, once per incoming row.
    pub(crate) fn run_call(&self, call: &ProcedureCall, rows: &Vec<Bindings>) -> (made: Result<
        (Vec<String>, Vec<Bindings>),
        QueryError,
    >)
        ensures
            match made {
                Ok(found) => called_rows(self@, *call, views(rows@)) == Ok::<_, QueryErrorModel>(
                    (views(found.0@), views(found.1@)),
                ),
                Err(error) => called_rows(self@, *call, views(rows@)) == Err::<
                    (Seq<Seq<char>>, Seq<Scope>),
                    _,
                >(error@),
            },
    {
        let ghost world = self@;
        let ghost models = views(rows@);
        let procedure = match lookup(call.name.as_str(), call.range) {
            Err(error) => return Err(error),
            Ok(found) => found,
        };
        let kept = match keep_columns(&procedure, &call.yields, call.range) {
            Err(error) => return Err(error),
            Ok(kept) => kept,
        };
        let ghost columns = kept_models(kept@);
        let mut names: Vec<String> = Vec::new();
        let mut at: usize = 0;
        while at < kept.len()
            invariant
                at <= kept@.len(),
                columns == kept_models(kept@),
                views(names@) =~= kept_names(columns).take(at as int),
            decreases kept@.len() - at,
        {
            let name = kept[at].1.clone();
            assert(columns[at as int] == (kept@[at as int].0 as int, kept@[at as int].1@));
            proof {
                views_push(names@, name);
            }
            names.push(name);
            at = at + 1;
        }
        assert(views(names@) =~= kept_names(columns));
        let mut next: Vec<Bindings> = Vec::new();
        assert(views(next@) =~= Seq::<Scope>::empty());
        let mut place: usize = 0;
        while place < rows.len()
            invariant
                place <= rows@.len(),
                world == self@,
                models == views(rows@),
                columns == kept_models(kept@),
                procedure_named(call.name@) == Some(procedure@),
                columns_kept(procedure@, call.yields@, call.range) == Ok::<_, QueryErrorModel>(
                    columns,
                ),
                rows_called(world, *call, procedure@, columns, models, 0, Seq::empty())
                    == rows_called(
                    world,
                    *call,
                    procedure@,
                    columns,
                    models,
                    place as int,
                    views(next@),
                ),
            decreases rows@.len() - place,
        {
            assert(models[place as int] == rows@[place as int]@);
            let arguments = match self.evaluate_list(&call.arguments, &rows[place]) {
                Err(error) => return Err(error),
                Ok(arguments) => arguments,
            };
            let graph = self.holder(&arguments);
            match run(&procedure, arguments.as_slice(), graph, self.context, call.range) {
                Err(error) => return Err(error),
                Ok(produced) => {
                    append_rows(&mut next, rows_for_results(&rows[place], &kept, &produced));
                }
            }
            place = place + 1;
        }
        Ok((names, next))
    }
}

// -- Values of a write -------------------------------------------------------------

/// An inline map from `at` on, evaluated against one row, behind what is before it.
pub open spec fn map_evaluated(
    world: World,
    map: Seq<(String, Expression)>,
    at: int,
    row: Scope,
    before: Seq<(Seq<char>, QueryModel)>,
) -> Read<Seq<(Seq<char>, QueryModel)>>
    decreases map.len() - at,
{
    if at < 0 || at >= map.len() {
        Ok(before)
    } else {
        match evaluated(world, map[at].1, row, None) {
            Err(wrong) => Err(wrong),
            Ok(value) => map_evaluated(world, map, at + 1, row, before.push((map[at].0@, value))),
        }
    }
}

/// The inline maps of the steps from `at` on, evaluated against one row, behind those
/// before them.
pub open spec fn steps_evaluated(
    world: World,
    steps: Seq<(RelationshipPattern, NodePattern)>,
    at: int,
    row: Scope,
    before: Seq<(Seq<(Seq<char>, QueryModel)>, Seq<(Seq<char>, QueryModel)>)>,
) -> Read<Seq<(Seq<(Seq<char>, QueryModel)>, Seq<(Seq<char>, QueryModel)>)>>
    decreases steps.len() - at,
{
    if at < 0 || at >= steps.len() {
        Ok(before)
    } else {
        match map_evaluated(world, steps[at].0.properties@, 0, row, Seq::empty()) {
            Err(wrong) => Err(wrong),
            Ok(relationship) => match map_evaluated(
                world,
                steps[at].1.properties@,
                0,
                row,
                Seq::empty(),
            ) {
                Err(wrong) => Err(wrong),
                Ok(node) => steps_evaluated(
                    world,
                    steps,
                    at + 1,
                    row,
                    before.push((relationship, node)),
                ),
            },
        }
    }
}

/// Every inline map of a pattern, evaluated against one row.
pub open spec fn pattern_evaluated(world: World, pattern: Pattern, row: Scope) -> Read<
    PatternModel,
> {
    match steps_evaluated(world, pattern.steps@, 0, row, Seq::empty()) {
        Err(wrong) => Err(wrong),
        Ok(steps) => match map_evaluated(world, pattern.start.properties@, 0, row, Seq::empty()) {
            Err(wrong) => Err(wrong),
            Ok(start) => Ok(PatternModel { start, steps }),
        },
    }
}

/// The inline maps of the patterns from `at` on, evaluated against one row, behind those
/// before them.
pub open spec fn patterns_evaluated(
    world: World,
    patterns: Seq<Pattern>,
    at: int,
    row: Scope,
    before: Seq<PatternModel>,
) -> Read<Seq<PatternModel>>
    decreases patterns.len() - at,
{
    if at < 0 || at >= patterns.len() {
        Ok(before)
    } else {
        match pattern_evaluated(world, patterns[at], row) {
            Err(wrong) => Err(wrong),
            Ok(values) => patterns_evaluated(world, patterns, at + 1, row, before.push(values)),
        }
    }
}

/// What a row gives the patterns of a write, for the rows from `at` on, behind those
/// before them.
pub open spec fn rows_evaluated(
    world: World,
    patterns: Seq<Pattern>,
    rows: Seq<Scope>,
    at: int,
    before: Seq<Seq<PatternModel>>,
) -> Read<Seq<Seq<PatternModel>>>
    decreases rows.len() - at,
{
    if at < 0 || at >= rows.len() {
        Ok(before)
    } else {
        match patterns_evaluated(world, patterns, 0, rows[at], Seq::empty()) {
            Err(wrong) => Err(wrong),
            Ok(values) => rows_evaluated(world, patterns, rows, at + 1, before.push(values)),
        }
    }
}

/// What one `SET` item assigns, where it assigns a value.
pub open spec fn item_evaluated(world: World, item: SetItem, row: Scope) -> Read<
    Option<QueryModel>,
> {
    match item {
        SetItem::Property { value, .. } => match evaluated(world, value, row, None) {
            Err(wrong) => Err(wrong),
            Ok(found) => Ok(Some(found)),
        },
        SetItem::Label { .. } => Ok(None),
    }
}

/// What the `SET` items from `at` on assign, behind what is before them.
pub open spec fn items_evaluated(
    world: World,
    items: Seq<SetItem>,
    at: int,
    row: Scope,
    before: Seq<Option<QueryModel>>,
) -> Read<Seq<Option<QueryModel>>>
    decreases items.len() - at,
{
    if at < 0 || at >= items.len() {
        Ok(before)
    } else {
        match item_evaluated(world, items[at], row) {
            Err(wrong) => Err(wrong),
            Ok(value) => items_evaluated(world, items, at + 1, row, before.push(value)),
        }
    }
}

/// What the `SET` items assign in the rows from `at` on, behind what is before them.
pub open spec fn assignments_evaluated(
    world: World,
    items: Seq<SetItem>,
    rows: Seq<Scope>,
    at: int,
    before: Seq<Seq<Option<QueryModel>>>,
) -> Read<Seq<Seq<Option<QueryModel>>>>
    decreases rows.len() - at,
{
    if at < 0 || at >= rows.len() {
        Ok(before)
    } else {
        match items_evaluated(world, items, 0, rows[at], Seq::empty()) {
            Err(wrong) => Err(wrong),
            Ok(values) => assignments_evaluated(world, items, rows, at + 1, before.push(values)),
        }
    }
}

/// What the targets of a `DELETE` are in the rows from `at` on, behind what is before them.
pub open spec fn targets_evaluated(
    world: World,
    targets: Seq<Expression>,
    rows: Seq<Scope>,
    at: int,
    before: Seq<Seq<QueryModel>>,
) -> Read<Seq<Seq<QueryModel>>>
    decreases rows.len() - at,
{
    if at < 0 || at >= rows.len() {
        Ok(before)
    } else {
        match evaluated_from(world, targets, 0, rows[at], None, Seq::empty()) {
            Err(wrong) => Err(wrong),
            Ok(values) => targets_evaluated(world, targets, rows, at + 1, before.push(values)),
        }
    }
}

spec fn step_models(steps: Seq<(MapValues, MapValues)>) -> Seq<
    (Seq<(Seq<char>, QueryModel)>, Seq<(Seq<char>, QueryModel)>),
> {
    Seq::new(steps.len(), |i: int| (map_model(steps[i].0@), map_model(steps[i].1@)))
}

/// The models of what rows give the patterns of a write.
pub(crate) open(crate) spec fn values_models(values: Seq<Vec<PatternValues>>) -> Seq<
    Seq<PatternModel>,
> {
    Seq::new(values.len(), |i: int| views(values[i]@))
}

/// The models of values that may be missing.
pub open spec fn option_models(values: Seq<Option<QueryValue>>) -> Seq<Option<QueryModel>> {
    Seq::new(values.len(), |i: int| view_of(values[i]))
}

/// The models of what `SET` items assign.
pub open spec fn assignment_models(values: Seq<Vec<Option<QueryValue>>>) -> Seq<
    Seq<Option<QueryModel>>,
> {
    Seq::new(values.len(), |i: int| option_models(values[i]@))
}

impl<'a> Executor<'a> {
    fn map_values(&self, map: &Vec<(String, Expression)>, row: &Bindings) -> (made: Result<
        MapValues,
        QueryError,
    >)
        ensures
            match made {
                Ok(values) => map_evaluated(
                    self@,
                    map@,
                    0,
                    row@,
                    Seq::empty(),
                ) matches Ok(model) && model == map_model(values@),
                Err(error) => map_evaluated(
                    self@,
                    map@,
                    0,
                    row@,
                    Seq::empty(),
                ) matches Err(wrong) && wrong == error@,
            },
    {
        let ghost world = self@;
        let mut values: MapValues = Vec::new();
        assert(map_model(values@) =~= Seq::<(Seq<char>, QueryModel)>::empty());
        let mut at: usize = 0;
        while at < map.len()
            invariant
                at <= map@.len(),
                world == self@,
                map_evaluated(world, map@, 0, row@, Seq::empty()) == map_evaluated(
                    world,
                    map@,
                    at as int,
                    row@,
                    map_model(values@),
                ),
            decreases map@.len() - at,
        {
            match self.evaluate(&map[at].1, row) {
                Err(error) => return Err(error),
                Ok(value) => {
                    let one = (map[at].0.clone(), value);
                    assert(map_model(values@.push(one)) =~= map_model(values@).push(
                        (one.0@, one.1@),
                    ));
                    values.push(one);
                }
            }
            at = at + 1;
        }
        Ok(values)
    }

    /// Every inline map of a pattern, evaluated against one row.
    pub(crate) fn pattern_values(&self, pattern: &Pattern, row: &Bindings) -> (made: Result<
        PatternValues,
        QueryError,
    >)
        ensures
            match made {
                Ok(values) => values.steps@.len() == pattern.steps@.len() && (pattern_evaluated(
                    self@,
                    *pattern,
                    row@,
                ) matches Ok(model) && model == values@),
                Err(error) => pattern_evaluated(self@, *pattern, row@) matches Err(wrong) && wrong
                    == error@,
            },
    {
        let ghost world = self@;
        let mut steps: Vec<(MapValues, MapValues)> = Vec::new();
        assert(step_models(steps@) =~= Seq::empty());
        let mut at: usize = 0;
        while at < pattern.steps.len()
            invariant
                at <= pattern.steps@.len(),
                steps@.len() == at,
                world == self@,
                steps_evaluated(world, pattern.steps@, 0, row@, Seq::empty()) == steps_evaluated(
                    world,
                    pattern.steps@,
                    at as int,
                    row@,
                    step_models(steps@),
                ),
            decreases pattern.steps@.len() - at,
        {
            let relationship = match self.map_values(&pattern.steps[at].0.properties, row) {
                Err(error) => return Err(error),
                Ok(values) => values,
            };
            let node = match self.map_values(&pattern.steps[at].1.properties, row) {
                Err(error) => return Err(error),
                Ok(values) => values,
            };
            let one = (relationship, node);
            assert(step_models(steps@.push(one)) =~= step_models(steps@).push(
                (map_model(one.0@), map_model(one.1@)),
            ));
            steps.push(one);
            at = at + 1;
        }
        match self.map_values(&pattern.start.properties, row) {
            Err(error) => Err(error),
            Ok(start) => {
                let values = PatternValues { start, steps };
                assert(values@.steps =~= step_models(values.steps@));
                Ok(values)
            }
        }
    }

    fn patterns_values(&self, patterns: &Vec<Pattern>, row: &Bindings) -> (made: Result<
        Vec<PatternValues>,
        QueryError,
    >)
        ensures
            match made {
                Ok(values) => values@.len() == patterns@.len() && (forall|i: int|
                    0 <= i < values@.len() ==> (#[trigger] values@[i]).steps@.len()
                        == patterns@[i].steps@.len()) && (patterns_evaluated(
                    self@,
                    patterns@,
                    0,
                    row@,
                    Seq::empty(),
                ) matches Ok(model) && model == views(values@)),
                Err(error) => patterns_evaluated(
                    self@,
                    patterns@,
                    0,
                    row@,
                    Seq::empty(),
                ) matches Err(wrong) && wrong == error@,
            },
    {
        let ghost world = self@;
        let mut values: Vec<PatternValues> = Vec::new();
        assert(views(values@) =~= Seq::<PatternModel>::empty());
        let mut at: usize = 0;
        while at < patterns.len()
            invariant
                at <= patterns@.len(),
                values@.len() == at,
                forall|i: int|
                    0 <= i < values@.len() ==> (#[trigger] values@[i]).steps@.len()
                        == patterns@[i].steps@.len(),
                world == self@,
                patterns_evaluated(world, patterns@, 0, row@, Seq::empty()) == patterns_evaluated(
                    world,
                    patterns@,
                    at as int,
                    row@,
                    views(values@),
                ),
            decreases patterns@.len() - at,
        {
            match self.pattern_values(&patterns[at], row) {
                Err(error) => return Err(error),
                Ok(one) => {
                    proof {
                        views_push(values@, one);
                    }
                    values.push(one);
                }
            }
            at = at + 1;
        }
        Ok(values)
    }

    /// What each row gives the patterns of a write.
    pub(crate) fn rows_values(&self, patterns: &Vec<Pattern>, rows: &Vec<Bindings>) -> (made: Result<
        Vec<Vec<PatternValues>>,
        QueryError,
    >)
        ensures
            match made {
                Ok(values) => {
                    &&& values@.len() == rows@.len()
                    &&& forall|i: int|
                        0 <= i < values@.len() ==> (#[trigger] values@[i])@.len()
                            == patterns@.len()
                    &&& forall|i: int, j: int|
                        0 <= i < values@.len() && 0 <= j < patterns@.len()
                            ==> (#[trigger] values@[i]@[j]).steps@.len()
                            == patterns@[j].steps@.len()
                    &&& rows_evaluated(
                        self@,
                        patterns@,
                        views(rows@),
                        0,
                        Seq::empty(),
                    ) == Ok::<_, QueryErrorModel>(values_models(values@))
                },
                Err(error) => rows_evaluated(
                    self@,
                    patterns@,
                    views(rows@),
                    0,
                    Seq::empty(),
                ) matches Err(wrong) && wrong == error@,
            },
    {
        let ghost world = self@;
        let ghost models = views(rows@);
        let mut values: Vec<Vec<PatternValues>> = Vec::new();
        assert(values_models(values@) =~= Seq::<Seq<PatternModel>>::empty());
        let mut at: usize = 0;
        while at < rows.len()
            invariant
                at <= rows@.len(),
                values@.len() == at,
                forall|i: int|
                    0 <= i < values@.len() ==> (#[trigger] values@[i])@.len() == patterns@.len(),
                forall|i: int, j: int|
                    0 <= i < values@.len() && 0 <= j < patterns@.len()
                        ==> (#[trigger] values@[i]@[j]).steps@.len() == patterns@[j].steps@.len(),
                world == self@,
                models == views(rows@),
                rows_evaluated(world, patterns@, models, 0, Seq::empty()) == rows_evaluated(
                    world,
                    patterns@,
                    models,
                    at as int,
                    values_models(values@),
                ),
            decreases rows@.len() - at,
        {
            assert(models[at as int] == rows@[at as int]@);
            match self.patterns_values(patterns, &rows[at]) {
                Err(error) => return Err(error),
                Ok(one) => {
                    assert(values_models(values@.push(one)) =~= values_models(values@).push(
                        views(one@),
                    ));
                    values.push(one);
                }
            }
            at = at + 1;
        }
        Ok(values)
    }

    fn items_values(&self, items: &Vec<SetItem>, row: &Bindings) -> (made: Result<
        Vec<Option<QueryValue>>,
        QueryError,
    >)
        ensures
            match made {
                Ok(values) => values@.len() == items@.len() && (items_evaluated(
                    self@,
                    items@,
                    0,
                    row@,
                    Seq::empty(),
                ) matches Ok(model) && model == option_models(values@)),
                Err(error) => items_evaluated(
                    self@,
                    items@,
                    0,
                    row@,
                    Seq::empty(),
                ) matches Err(wrong) && wrong == error@,
            },
    {
        let ghost world = self@;
        let mut values: Vec<Option<QueryValue>> = Vec::new();
        assert(option_models(values@) =~= Seq::<Option<QueryModel>>::empty());
        let mut at: usize = 0;
        while at < items.len()
            invariant
                at <= items@.len(),
                values@.len() == at,
                world == self@,
                items_evaluated(world, items@, 0, row@, Seq::empty()) == items_evaluated(
                    world,
                    items@,
                    at as int,
                    row@,
                    option_models(values@),
                ),
            decreases items@.len() - at,
        {
            let one = match &items[at] {
                SetItem::Property { value, .. } => match self.evaluate(value, row) {
                    Err(error) => return Err(error),
                    Ok(found) => Some(found),
                },
                SetItem::Label { .. } => None,
            };
            assert(option_models(values@.push(one)) =~= option_models(values@).push(view_of(one)));
            values.push(one);
            at = at + 1;
        }
        Ok(values)
    }

    /// What the `SET` items assign in each row.
    pub(crate) fn assignment_values(&self, items: &Vec<SetItem>, rows: &Vec<Bindings>) -> (made: Result<
        Vec<Vec<Option<QueryValue>>>,
        QueryError,
    >)
        ensures
            match made {
                Ok(values) => {
                    &&& values@.len() == rows@.len()
                    &&& forall|i: int|
                        0 <= i < values@.len() ==> (#[trigger] values@[i])@.len() == items@.len()
                    &&& assignments_evaluated(
                        self@,
                        items@,
                        views(rows@),
                        0,
                        Seq::empty(),
                    ) == Ok::<_, QueryErrorModel>(assignment_models(values@))
                },
                Err(error) => assignments_evaluated(
                    self@,
                    items@,
                    views(rows@),
                    0,
                    Seq::empty(),
                ) matches Err(wrong) && wrong == error@,
            },
    {
        let ghost world = self@;
        let ghost models = views(rows@);
        let mut values: Vec<Vec<Option<QueryValue>>> = Vec::new();
        assert(assignment_models(values@) =~= Seq::<Seq<Option<QueryModel>>>::empty());
        let mut at: usize = 0;
        while at < rows.len()
            invariant
                at <= rows@.len(),
                values@.len() == at,
                forall|i: int|
                    0 <= i < values@.len() ==> (#[trigger] values@[i])@.len() == items@.len(),
                world == self@,
                models == views(rows@),
                assignments_evaluated(world, items@, models, 0, Seq::empty())
                    == assignments_evaluated(
                    world,
                    items@,
                    models,
                    at as int,
                    assignment_models(values@),
                ),
            decreases rows@.len() - at,
        {
            assert(models[at as int] == rows@[at as int]@);
            match self.items_values(items, &rows[at]) {
                Err(error) => return Err(error),
                Ok(one) => {
                    assert(assignment_models(values@.push(one)) =~= assignment_models(
                        values@,
                    ).push(option_models(one@)));
                    values.push(one);
                }
            }
            at = at + 1;
        }
        Ok(values)
    }

    /// What the targets of a `DELETE` are in each row.
    pub(crate) fn target_values(&self, targets: &Vec<Expression>, rows: &Vec<Bindings>) -> (made: Result<
        Vec<Vec<QueryValue>>,
        QueryError,
    >)
        ensures
            match made {
                Ok(values) => targets_evaluated(
                    self@,
                    targets@,
                    views(rows@),
                    0,
                    Seq::empty(),
                ) matches Ok(model) && model == row_models(values@),
                Err(error) => targets_evaluated(
                    self@,
                    targets@,
                    views(rows@),
                    0,
                    Seq::empty(),
                ) matches Err(wrong) && wrong == error@,
            },
    {
        let ghost world = self@;
        let ghost models = views(rows@);
        let mut values: Vec<Vec<QueryValue>> = Vec::new();
        assert(row_models(values@) =~= Seq::<Seq<QueryModel>>::empty());
        let mut at: usize = 0;
        while at < rows.len()
            invariant
                at <= rows@.len(),
                world == self@,
                models == views(rows@),
                targets_evaluated(world, targets@, models, 0, Seq::empty()) == targets_evaluated(
                    world,
                    targets@,
                    models,
                    at as int,
                    row_models(values@),
                ),
            decreases rows@.len() - at,
        {
            assert(models[at as int] == rows@[at as int]@);
            match self.evaluate_list(targets, &rows[at]) {
                Err(error) => return Err(error),
                Ok(one) => {
                    proof {
                        crate::procedure::row_models_push(values@, one);
                    }
                    values.push(one);
                }
            }
            at = at + 1;
        }
        Ok(values)
    }
}

} // verus!
