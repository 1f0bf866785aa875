//! Executing queries.
//!
//! # Reads and writes
//!
//! A read sees the root and every linked source it was given. A write touches the root
//! alone: a bound record carries its source, and any handle whose source is not the root's
//! is refused.
//!
//! # What a row set promises
//!
//! A query without `ORDER BY` promises a set of rows, not their order.
//!
//! # Writes within one clause
//!
//! The values a write clause assigns are evaluated against the graph as the clause found
//! it, so that one row's write cannot change what another row assigns. A `MERGE` matches
//! row by row, so that a repeated row finds what the first one created.

use crate::big::Relation;
use crate::bindings::found_in;
use crate::cancel::Never;
use crate::cancel::ShouldStop;
use crate::clauses::asks;
use crate::clauses::assignment_models;
use crate::clauses::assignments_evaluated;
use crate::clauses::called_rows;
use crate::clauses::cancelled;
use crate::clauses::follows;
use crate::clauses::follows_on;
use crate::clauses::leads;
use crate::clauses::leads_before;
use crate::clauses::open_scopes;
use crate::clauses::option_models;
use crate::clauses::pattern_evaluated;
use crate::clauses::rows_evaluated;
use crate::clauses::rows_matched;
use crate::clauses::rows_unwound;
use crate::clauses::scopes_of_rows;
use crate::clauses::stop_if_asked;
use crate::clauses::stops_for;
use crate::clauses::told;
use crate::clauses::targets_evaluated;
use crate::clauses::values_models;
use crate::clauses::views_joined;
use crate::clauses::Fate;
use crate::clauses::Known;
use crate::copies::Copied;
use crate::cypher::column_names;
use crate::cypher::labels_of_parts;
use crate::cypher::names_of_columns;
use crate::cypher::parts_write;
use crate::cypher::unbound;
use crate::cypher::writes_in;
use crate::cypher::Clause;
use crate::cypher::Pattern;
use crate::cypher::Projection;
use crate::cypher::Query;
use crate::cypher::QueryError;
use crate::cypher::QueryErrorModel;
use crate::cypher::QueryPart;
use crate::cypher::RemoveItem;
use crate::cypher::SetItem;
use crate::diagnostic::Diagnostic;
use crate::diagnostic::DiagnosticCode;
use crate::diagnostic::DiagnosticModel;
use crate::diagnostic::Severity;
use crate::evaluate::Executor;
use crate::evaluate::World;
use crate::evidence::SourceRange;
use crate::graph::Graph;
use crate::graph::GraphModel;
use crate::graph::NodeModel;
use crate::id::version_seven;
use crate::id::Minter;
use crate::matching::matched;
use crate::matching::Scope;
use crate::mutate::assign_item;
use crate::mutate::assignment_is_counted;
use crate::mutate::counts_tell;
use crate::mutate::creation_is_counted;
use crate::mutate::deletion_is_counted;
use crate::mutate::removal_is_counted;
use crate::mutate::assigned;
use crate::mutate::create_pattern;
use crate::mutate::delete_value;
use crate::mutate::deleted;
use crate::mutate::goes_on;
use crate::mutate::Minted;
use crate::mutate::goes_on_before;
use crate::mutate::issued_chain;
use crate::mutate::issued_on;
use crate::mutate::issued_still;
use crate::mutate::pattern_created;
use crate::mutate::remove_item;
use crate::mutate::removed;
use crate::mutate::starts_chain;
use crate::mutate::Created;
use crate::mutate::PatternModel;
use crate::mutate::PatternValues;
use crate::mutate::WriteSummary;
use crate::mutate::Written;
use crate::nost::convert::starts_with;
use crate::procedure::ContextModel;
use crate::projection::compare_rows;
use crate::projection::projected;
use crate::procedure::row_models;
use crate::procedure::row_models_push;
use crate::sorting::seen;
use crate::text::joined;
use crate::text::view_of;
use crate::text::views;
use crate::text::views_push;
use crate::text::NonEmptyText;
use crate::value::copy_value;
use crate::value::copy_values;
use crate::value::of_lists;
use crate::value::QueryModel;
use vstd::prelude::*;
use vstd::string::StringExecFns;

pub use crate::bindings::Bindings;
pub use crate::bindings::Parameters;
pub use crate::evaluate::LinkedSource;
pub use crate::procedure::DatabaseContext;
pub use crate::value::QueryValue;
pub use crate::value::Scoped;
pub use crate::value::ScopedEdge;
pub use crate::value::ScopedNode;

verus! {

// -- What a query is run in --------------------------------------------------------

/// What every clause of a query reads and none changes.
pub struct Setting {
    /// The linked sources, each with its locator.
    pub linked: Seq<(Seq<char>, GraphModel)>,
    /// The parameters.
    pub parameters: Map<Seq<char>, QueryModel>,
    /// What is known about the database.
    pub context: ContextModel,
}

impl Setting {
    /// What a read sees where the root holds a graph.
    pub open spec fn world(self, graph: GraphModel) -> World {
        World {
            root: graph,
            linked: self.linked,
            parameters: self.parameters,
            context: self.context,
        }
    }
}

/// What a query has changed: the graph, the counts, and how many of the minted identifiers
/// were taken.
pub struct Changed {
    /// The graph.
    pub graph: GraphModel,
    /// The counts.
    pub summary: WriteSummary,
    /// How many minted identifiers were taken.
    pub used: int,
}

/// What a step comes to: what is changed by then and what it made, or, where it is refused,
/// the graph as it is by then and why.
pub type Step<T> = Result<(Changed, T), (GraphModel, QueryErrorModel)>;

/// What a query has changed, with what a row has bound.
pub open spec fn with_scope(state: Changed, scope: Scope) -> Written {
    Written { graph: state.graph, summary: state.summary, scope, used: state.used }
}

/// What a query has changed, without what a row has bound.
pub open spec fn without_scope(state: Written) -> Changed {
    Changed { graph: state.graph, summary: state.summary, used: state.used }
}

struct Run<'a, C: ShouldStop + ?Sized> {
    linked: &'a [LinkedSource<'a>],
    parameters: &'a Parameters,
    context: &'a DatabaseContext,
    cancel: &'a C,
}

impl<'a, C: ShouldStop + ?Sized> View for Run<'a, C> {
    type V = Setting;

    closed spec fn view(&self) -> Setting {
        Setting {
            linked: views(self.linked@),
            parameters: self.parameters@,
            context: self.context@,
        }
    }
}

impl<'a, C: ShouldStop + ?Sized> Run<'a, C> {
    fn reader<'b>(&self, graph: &'b Graph) -> (reader: Executor<'b>) where 'a: 'b
        ensures
            reader@ == self@.world(graph@),
    {
        Executor {
            root: graph,
            linked: self.linked,
            parameters: self.parameters,
            context: self.context,
        }
    }
}

// -- Creating and merging ----------------------------------------------------------

/// What creating the patterns from `at` on comes to in one row.
pub open spec fn patterns_created(
    state: Written,
    patterns: Seq<Pattern>,
    values: Seq<PatternModel>,
    at: int,
    range: SourceRange,
    minted: Minted,
) -> (Written, Created<()>)
    decreases patterns.len() - at,
{
    if at < 0 || at >= patterns.len() {
        (state, Ok(()))
    } else {
        match pattern_created(state, patterns[at], values[at], range, minted) {
            (next, Err(wrong)) => (next, Err(wrong)),
            (next, Ok(_)) => patterns_created(next, patterns, values, at + 1, range, minted),
        }
    }
}

/// What a `CREATE` comes to in the rows from `at` on, behind those before them.
pub open spec fn rows_created(
    state: Changed,
    patterns: Seq<Pattern>,
    rows: Seq<Scope>,
    values: Seq<Seq<PatternModel>>,
    at: int,
    range: SourceRange,
    minted: Minted,
    before: Seq<Scope>,
) -> Step<Seq<Scope>>
    decreases rows.len() - at,
{
    if at < 0 || at >= rows.len() {
        Ok((state, before))
    } else {
        match patterns_created(with_scope(state, rows[at]), patterns, values[at], 0, range, minted) {
            (next, Err(wrong)) => Err((next.graph, wrong)),
            (next, Ok(_)) => rows_created(
                without_scope(next),
                patterns,
                rows,
                values,
                at + 1,
                range,
                minted,
                before.push(next.scope),
            ),
        }
    }
}

/// What a `MERGE` comes to in the rows from `at` on, behind those before them: what a row
/// finds, or what is created for it.
pub open spec fn rows_merged(
    setting: Setting,
    state: Changed,
    pattern: Pattern,
    rows: Seq<Scope>,
    at: int,
    range: SourceRange,
    minted: Minted,
    before: Seq<Scope>,
) -> Step<Seq<Scope>>
    decreases rows.len() - at,
{
    if at < 0 || at >= rows.len() {
        Ok((state, before))
    } else {
        match matched(setting.world(state.graph), pattern, rows[at]) {
            Err(wrong) => Err((state.graph, wrong)),
            Ok(found) => if found.len() > 0 {
                rows_merged(
                    setting,
                    state,
                    pattern,
                    rows,
                    at + 1,
                    range,
                    minted,
                    before + found,
                )
            } else {
                match pattern_evaluated(setting.world(state.graph), pattern, rows[at]) {
                    Err(wrong) => Err((state.graph, wrong)),
                    Ok(values) => match pattern_created(
                        with_scope(state, rows[at]),
                        pattern,
                        values,
                        range,
                        minted,
                    ) {
                        (next, Err(wrong)) => Err((next.graph, wrong)),
                        (next, Ok(_)) => rows_merged(
                            setting,
                            without_scope(next),
                            pattern,
                            rows,
                            at + 1,
                            range,
                            minted,
                            before.push(next.scope),
                        ),
                    },
                }
            },
        }
    }
}

/// What is changed by now.
pub open spec fn changed(graph: Graph, summary: WriteSummary, minted: Seq<Seq<u8>>) -> Changed {
    Changed { graph: graph@, summary, used: minted.len() as int }
}

fn create_all(
    graph: &mut Graph,
    minter: &mut Minter,
    summary: &mut WriteSummary,
    bindings: &mut Bindings,
    patterns: &Vec<Pattern>,
    values: &Vec<PatternValues>,
    range: SourceRange,
    Ghost(sofar): Ghost<Seq<Seq<u8>>>,
) -> (made: (Result<(), QueryError>, Ghost<Seq<Seq<u8>>>))
    requires
        values@.len() == patterns@.len(),
        forall|j: int|
            0 <= j < patterns@.len() ==> (#[trigger] values@[j]).steps@.len()
                == patterns@[j].steps@.len(),
    ensures
        issued_on(*old(minter), *final(minter), sofar, made.1@),
        forall|minted: Minted| #[trigger]
            goes_on(minted, made.1@) ==> patterns_created(
                with_scope(changed(*old(graph), *old(summary), sofar), old(bindings)@),
                patterns@,
                views(values@),
                0,
                range,
                minted,
            ) == (
                with_scope(changed(*final(graph), *final(summary), made.1@), final(bindings)@),
                crate::mutate::made_model(made.0),
            ),
{
    broadcast use {goes_on_before, starts_chain};

    let ghost start = with_scope(changed(*graph, *summary, sofar), bindings@);
    let ghost issuer = *minter;
    let ghost models = views(values@);
    proof {
        issued_still(issuer, sofar);
    }
    let ghost mut taken = sofar;
    let mut at: usize = 0;
    while at < patterns.len()
        invariant
            at <= patterns@.len() == values@.len(),
            forall|j: int|
                0 <= j < patterns@.len() ==> (#[trigger] values@[j]).steps@.len()
                    == patterns@[j].steps@.len(),
            models == views(values@),
            issuer == *old(minter),
            start == with_scope(changed(*old(graph), *old(summary), sofar), old(bindings)@),
            issued_on(issuer, *minter, sofar, taken),
            forall|minted: Minted| #[trigger]
                goes_on(minted, taken) ==> patterns_created(
                    start,
                    patterns@,
                    models,
                    0,
                    range,
                    minted,
                ) == patterns_created(
                    with_scope(changed(*graph, *summary, taken), bindings@),
                    patterns@,
                    models,
                    at as int,
                    range,
                    minted,
                ),
        decreases patterns@.len() - at,
    {
        broadcast use {goes_on_before, starts_chain};

        assert(models[at as int] == values@[at as int]@);
        let ghost before = *minter;
        let ghost earlier = taken;
        let (made, Ghost(next)) = create_pattern(
            graph,
            minter,
            summary,
            bindings,
            &patterns[at],
            &values[at],
            range,
            Ghost(taken),
        );
        proof {
            issued_chain(issuer, before, *minter, sofar, earlier, next);
        }
        match made {
            Err(error) => {
                return (Err(error), Ghost(next));
            }
            Ok(_) => {}
        }
        proof {
            taken = next;
        }
        at = at + 1;
    }
    (Ok(()), Ghost(taken))
}

fn create_rows(
    graph: &mut Graph,
    minter: &mut Minter,
    summary: &mut WriteSummary,
    patterns: &Vec<Pattern>,
    rows: &Vec<Bindings>,
    values: &Vec<Vec<PatternValues>>,
    range: SourceRange,
    Ghost(sofar): Ghost<Seq<Seq<u8>>>,
) -> (made: (Result<Vec<Bindings>, QueryError>, Ghost<Seq<Seq<u8>>>))
    requires
        values@.len() == rows@.len(),
        forall|i: int| 0 <= i < values@.len() ==> (#[trigger] values@[i])@.len() == patterns@.len(),
        forall|i: int, j: int|
            0 <= i < values@.len() && 0 <= j < patterns@.len() ==> (
            #[trigger] values@[i]@[j]).steps@.len() == patterns@[j].steps@.len(),
    ensures
        issued_on(*old(minter), *final(minter), sofar, made.1@),
        match made.0 {
            Ok(next) => forall|minted: Minted| #[trigger]
                goes_on(minted, made.1@) ==> rows_created(
                    changed(*old(graph), *old(summary), sofar),
                    patterns@,
                    views(rows@),
                    values_models(values@),
                    0,
                    range,
                    minted,
                    Seq::empty(),
                ) == Ok::<_, (GraphModel, QueryErrorModel)>(
                    (changed(*final(graph), *final(summary), made.1@), views(next@)),
                ),
            Err(error) => forall|minted: Minted| #[trigger]
                goes_on(minted, made.1@) ==> rows_created(
                    changed(*old(graph), *old(summary), sofar),
                    patterns@,
                    views(rows@),
                    values_models(values@),
                    0,
                    range,
                    minted,
                    Seq::empty(),
                ) == Err::<(Changed, Seq<Scope>), _>((final(graph)@, error@)),
        },
{
    broadcast use {goes_on_before, starts_chain};

    let ghost start = changed(*graph, *summary, sofar);
    let ghost issuer = *minter;
    let ghost models = views(rows@);
    let ghost given = values_models(values@);
    proof {
        issued_still(issuer, sofar);
    }
    let ghost mut taken = sofar;
    let mut next: Vec<Bindings> = Vec::new();
    assert(views(next@) =~= Seq::<Scope>::empty());
    let mut at: usize = 0;
    while at < rows.len()
        invariant
            at <= rows@.len() == values@.len(),
            forall|i: int|
                0 <= i < values@.len() ==> (#[trigger] values@[i])@.len() == patterns@.len(),
            forall|i: int, j: int|
                0 <= i < values@.len() && 0 <= j < patterns@.len() ==> (
                #[trigger] values@[i]@[j]).steps@.len() == patterns@[j].steps@.len(),
            models == views(rows@),
            given == values_models(values@),
            issuer == *old(minter),
            start == changed(*old(graph), *old(summary), sofar),
            issued_on(issuer, *minter, sofar, taken),
            forall|minted: Minted| #[trigger]
                goes_on(minted, taken) ==> rows_created(
                    start,
                    patterns@,
                    models,
                    given,
                    0,
                    range,
                    minted,
                    Seq::empty(),
                ) == rows_created(
                    changed(*graph, *summary, taken),
                    patterns@,
                    models,
                    given,
                    at as int,
                    range,
                    minted,
                    views(next@),
                ),
        decreases rows@.len() - at,
    {
        broadcast use {goes_on_before, starts_chain};

        assert(models[at as int] == rows@[at as int]@);
        assert(given[at as int] == views(values@[at as int]@));
        let ghost before = *minter;
        let ghost earlier = taken;
        let mut bindings = rows[at].copied();
        let (made, Ghost(now)) = create_all(
            graph,
            minter,
            summary,
            &mut bindings,
            patterns,
            &values[at],
            range,
            Ghost(taken),
        );
        proof {
            issued_chain(issuer, before, *minter, sofar, earlier, now);
        }
        match made {
            Err(error) => {
                return (Err(error), Ghost(now));
            }
            Ok(_) => {}
        }
        proof {
            taken = now;
            views_push(next@, bindings);
        }
        next.push(bindings);
        at = at + 1;
    }
    (Ok(next), Ghost(taken))
}

fn extend_rows(rows: &mut Vec<Bindings>, more: Vec<Bindings>)
    ensures
        views(final(rows)@) == views(old(rows)@) + views(more@),
{
    let mut rest = more;
    proof {
        views_joined(rows@, rest@);
    }
    rows.append(&mut rest);
}

fn merge_rows<'a, C: ShouldStop + ?Sized>(
    run: &Run<'a, C>,
    graph: &mut Graph,
    minter: &mut Minter,
    summary: &mut WriteSummary,
    pattern: &Pattern,
    rows: &Vec<Bindings>,
    range: SourceRange,
    Ghost(sofar): Ghost<Seq<Seq<u8>>>,
) -> (made: (Result<Vec<Bindings>, QueryError>, Ghost<Seq<Seq<u8>>>))
    requires
        run@.linked.len() < u32::MAX,
    ensures
        issued_on(*old(minter), *final(minter), sofar, made.1@),
        match made.0 {
            Ok(next) => forall|minted: Minted| #[trigger]
                goes_on(minted, made.1@) ==> rows_merged(
                    run@,
                    changed(*old(graph), *old(summary), sofar),
                    *pattern,
                    views(rows@),
                    0,
                    range,
                    minted,
                    Seq::empty(),
                ) == Ok::<_, (GraphModel, QueryErrorModel)>(
                    (changed(*final(graph), *final(summary), made.1@), views(next@)),
                ),
            Err(error) => forall|minted: Minted| #[trigger]
                goes_on(minted, made.1@) ==> rows_merged(
                    run@,
                    changed(*old(graph), *old(summary), sofar),
                    *pattern,
                    views(rows@),
                    0,
                    range,
                    minted,
                    Seq::empty(),
                ) == Err::<(Changed, Seq<Scope>), _>((final(graph)@, error@)),
        },
{
    broadcast use {goes_on_before, starts_chain};

    let ghost start = changed(*graph, *summary, sofar);
    let ghost issuer = *minter;
    let ghost models = views(rows@);
    proof {
        issued_still(issuer, sofar);
    }
    let ghost mut taken = sofar;
    let mut next: Vec<Bindings> = Vec::new();
    assert(views(next@) =~= Seq::<Scope>::empty());
    let mut at: usize = 0;
    while at < rows.len()
        invariant
            at <= rows@.len(),
            run@.linked.len() < u32::MAX,
            models == views(rows@),
            issuer == *old(minter),
            start == changed(*old(graph), *old(summary), sofar),
            issued_on(issuer, *minter, sofar, taken),
            forall|minted: Minted| #[trigger]
                goes_on(minted, taken) ==> rows_merged(
                    run@,
                    start,
                    *pattern,
                    models,
                    0,
                    range,
                    minted,
                    Seq::empty(),
                ) == rows_merged(
                    run@,
                    changed(*graph, *summary, taken),
                    *pattern,
                    models,
                    at as int,
                    range,
                    minted,
                    views(next@),
                ),
        decreases rows@.len() - at,
    {
        broadcast use {goes_on_before, starts_chain};

        assert(models[at as int] == rows@[at as int]@);
        assert(starts_with(taken, taken));
        let found = match run.reader(graph).match_pattern(pattern, &rows[at]) {
            Err(error) => {
                return (Err(error), Ghost(taken));
            }
            Ok(found) => found,
        };
        assert(views(found@).len() == found@.len());
        if found.len() > 0 {
            extend_rows(&mut next, found);
        } else {
            let values = match run.reader(graph).pattern_values(pattern, &rows[at]) {
                Err(error) => {
                    return (Err(error), Ghost(taken));
                }
                Ok(values) => values,
            };
            let ghost before = *minter;
            let ghost earlier = taken;
            let mut bindings = rows[at].copied();
            let (made, Ghost(now)) = create_pattern(
                graph,
                minter,
                summary,
                &mut bindings,
                pattern,
                &values,
                range,
                Ghost(taken),
            );
            proof {
                issued_chain(issuer, before, *minter, sofar, earlier, now);
            }
            match made {
                Err(error) => {
                    return (Err(error), Ghost(now));
                }
                Ok(_) => {}
            }
            proof {
                taken = now;
                views_push(next@, bindings);
            }
            next.push(bindings);
        }
        at = at + 1;
    }
    (Ok(next), Ghost(taken))
}

// -- Assigning, removing and deleting ----------------------------------------------

/// The variable a `SET` item names.
pub open spec fn set_name(item: SetItem) -> Seq<char> {
    match item {
        SetItem::Property { variable, .. } => variable@,
        SetItem::Label { variable, .. } => variable@,
    }
}

/// The variable a `REMOVE` item names.
pub open spec fn remove_name(item: RemoveItem) -> Seq<char> {
    match item {
        RemoveItem::Property { variable, .. } => variable@,
        RemoveItem::Label { variable, .. } => variable@,
    }
}

/// What is said of a variable that nothing is bound to.
pub open spec fn unbound_name(name: Seq<char>) -> QueryErrorModel {
    crate::cypher::meaningless("`"@ + name + "` is not bound"@, SourceRange::at_origin())
}

/// What the `SET` items from `at` on come to in one row.
pub open spec fn items_assigned(
    state: Changed,
    items: Seq<SetItem>,
    row: Scope,
    values: Seq<Option<QueryModel>>,
    at: int,
    range: SourceRange,
) -> Step<()>
    decreases items.len() - at,
{
    if at < 0 || at >= items.len() {
        Ok((state, ()))
    } else {
        let name = set_name(items[at]);
        match found_in(row, name) {
            None => Err((state.graph, unbound_name(name))),
            Some(bound) => match assigned(
                state.graph,
                state.summary,
                items[at],
                name,
                bound,
                values[at],
                range,
            ) {
                Err(wrong) => Err((state.graph, wrong)),
                Ok((graph, summary)) => items_assigned(
                    Changed { graph, summary, ..state },
                    items,
                    row,
                    values,
                    at + 1,
                    range,
                ),
            },
        }
    }
}

/// What a `SET` comes to in the rows from `at` on.
pub open spec fn rows_assigned(
    state: Changed,
    items: Seq<SetItem>,
    rows: Seq<Scope>,
    values: Seq<Seq<Option<QueryModel>>>,
    at: int,
    range: SourceRange,
) -> Step<()>
    decreases rows.len() - at,
{
    if at < 0 || at >= rows.len() {
        Ok((state, ()))
    } else {
        match items_assigned(state, items, rows[at], values[at], 0, range) {
            Err(wrong) => Err(wrong),
            Ok((next, _)) => rows_assigned(next, items, rows, values, at + 1, range),
        }
    }
}

/// What the `REMOVE` items from `at` on come to in one row.
pub open spec fn items_removed(
    state: Changed,
    items: Seq<RemoveItem>,
    row: Scope,
    at: int,
    range: SourceRange,
) -> Step<()>
    decreases items.len() - at,
{
    if at < 0 || at >= items.len() {
        Ok((state, ()))
    } else {
        let name = remove_name(items[at]);
        match found_in(row, name) {
            None => Err((state.graph, unbound_name(name))),
            Some(bound) => match removed(
                state.graph,
                state.summary,
                items[at],
                name,
                bound,
                range,
            ) {
                Err(wrong) => Err((state.graph, wrong)),
                Ok((graph, summary)) => items_removed(
                    Changed { graph, summary, ..state },
                    items,
                    row,
                    at + 1,
                    range,
                ),
            },
        }
    }
}

/// What a `REMOVE` comes to in the rows from `at` on.
pub open spec fn rows_removed(
    state: Changed,
    items: Seq<RemoveItem>,
    rows: Seq<Scope>,
    at: int,
    range: SourceRange,
) -> Step<()>
    decreases rows.len() - at,
{
    if at < 0 || at >= rows.len() {
        Ok((state, ()))
    } else {
        match items_removed(state, items, rows[at], 0, range) {
            Err(wrong) => Err(wrong),
            Ok((next, _)) => rows_removed(next, items, rows, at + 1, range),
        }
    }
}

/// What deleting the values from `at` on comes to.
pub open spec fn values_deleted(
    state: Changed,
    values: Seq<QueryModel>,
    at: int,
    detach: bool,
    range: SourceRange,
) -> Step<()>
    decreases values.len() - at,
{
    if at < 0 || at >= values.len() {
        Ok((state, ()))
    } else {
        match deleted(state.graph, state.summary, values[at], detach, range) {
            Err(wrong) => Err((state.graph, wrong)),
            Ok((graph, summary)) => values_deleted(
                Changed { graph, summary, ..state },
                values,
                at + 1,
                detach,
                range,
            ),
        }
    }
}

/// What a `DELETE` comes to for the values of the rows from `at` on.
pub open spec fn rows_deleted(
    state: Changed,
    values: Seq<Seq<QueryModel>>,
    at: int,
    detach: bool,
    range: SourceRange,
) -> Step<()>
    decreases values.len() - at,
{
    if at < 0 || at >= values.len() {
        Ok((state, ()))
    } else {
        match values_deleted(state, values[at], 0, detach, range) {
            Err(wrong) => Err(wrong),
            Ok((next, _)) => rows_deleted(next, values, at + 1, detach, range),
        }
    }
}

fn set_variable(item: &SetItem) -> (name: &str)
    ensures
        name@ == set_name(*item),
{
    match item {
        SetItem::Property { variable, .. } => variable.as_str(),
        SetItem::Label { variable, .. } => variable.as_str(),
    }
}

fn remove_variable(item: &RemoveItem) -> (name: &str)
    ensures
        name@ == remove_name(*item),
{
    match item {
        RemoveItem::Property { variable, .. } => variable.as_str(),
        RemoveItem::Label { variable, .. } => variable.as_str(),
    }
}

fn not_bound(name: &str) -> (error: QueryError)
    ensures
        error@ == unbound_name(name@),
{
    let mut message = joined("`", name);
    message.append("` is not bound");
    unbound(message.as_str())
}

fn assign_items(
    graph: &mut Graph,
    summary: &mut WriteSummary,
    items: &Vec<SetItem>,
    row: &Bindings,
    values: &Vec<Option<QueryValue>>,
    range: SourceRange,
    Ghost(sofar): Ghost<Seq<Seq<u8>>>,
) -> (made: Result<(), QueryError>)
    requires
        values@.len() == items@.len(),
    ensures
        items_assigned(
            changed(*old(graph), *old(summary), sofar),
            items@,
            row@,
            option_models(values@),
            0,
            range,
        ) == (match made {
            Ok(_) => Ok::<_, (GraphModel, QueryErrorModel)>(
                (changed(*final(graph), *final(summary), sofar), ()),
            ),
            Err(error) => Err((final(graph)@, error@)),
        }),
{
    let ghost start = changed(*graph, *summary, sofar);
    let ghost given = option_models(values@);
    let mut at: usize = 0;
    while at < items.len()
        invariant
            at <= items@.len() == values@.len(),
            start == changed(*old(graph), *old(summary), sofar),
            given == option_models(values@),
            items_assigned(start, items@, row@, given, 0, range) == items_assigned(
                changed(*graph, *summary, sofar),
                items@,
                row@,
                given,
                at as int,
                range,
            ),
        decreases items@.len() - at,
    {
        let name = set_variable(&items[at]);
        let bound = match row.get(name) {
            None => {
                return Err(not_bound(name));
            }
            Some(bound) => copy_value(bound),
        };
        let value = match &values[at] {
            Some(found) => Some(copy_value(found)),
            None => None,
        };
        assert(given[at as int] == view_of(value));
        match assign_item(graph, summary, &items[at], name, &bound, value, range) {
            Err(error) => {
                return Err(error);
            }
            Ok(_) => {}
        }
        at = at + 1;
    }
    Ok(())
}

fn assign_rows(
    graph: &mut Graph,
    summary: &mut WriteSummary,
    items: &Vec<SetItem>,
    rows: &Vec<Bindings>,
    values: &Vec<Vec<Option<QueryValue>>>,
    range: SourceRange,
    Ghost(sofar): Ghost<Seq<Seq<u8>>>,
) -> (made: Result<(), QueryError>)
    requires
        values@.len() == rows@.len(),
        forall|i: int| 0 <= i < values@.len() ==> (#[trigger] values@[i])@.len() == items@.len(),
    ensures
        rows_assigned(
            changed(*old(graph), *old(summary), sofar),
            items@,
            views(rows@),
            assignment_models(values@),
            0,
            range,
        ) == (match made {
            Ok(_) => Ok::<_, (GraphModel, QueryErrorModel)>(
                (changed(*final(graph), *final(summary), sofar), ()),
            ),
            Err(error) => Err((final(graph)@, error@)),
        }),
{
    let ghost start = changed(*graph, *summary, sofar);
    let ghost models = views(rows@);
    let ghost given = assignment_models(values@);
    let mut at: usize = 0;
    while at < rows.len()
        invariant
            at <= rows@.len() == values@.len(),
            forall|i: int|
                0 <= i < values@.len() ==> (#[trigger] values@[i])@.len() == items@.len(),
            start == changed(*old(graph), *old(summary), sofar),
            models == views(rows@),
            given == assignment_models(values@),
            rows_assigned(start, items@, models, given, 0, range) == rows_assigned(
                changed(*graph, *summary, sofar),
                items@,
                models,
                given,
                at as int,
                range,
            ),
        decreases rows@.len() - at,
    {
        assert(models[at as int] == rows@[at as int]@);
        assert(given[at as int] == option_models(values@[at as int]@));
        match assign_items(graph, summary, items, &rows[at], &values[at], range, Ghost(sofar)) {
            Err(error) => {
                return Err(error);
            }
            Ok(_) => {}
        }
        at = at + 1;
    }
    Ok(())
}

fn remove_items(
    graph: &mut Graph,
    summary: &mut WriteSummary,
    items: &Vec<RemoveItem>,
    row: &Bindings,
    range: SourceRange,
    Ghost(sofar): Ghost<Seq<Seq<u8>>>,
) -> (made: Result<(), QueryError>)
    ensures
        items_removed(changed(*old(graph), *old(summary), sofar), items@, row@, 0, range) == (
        match made {
            Ok(_) => Ok::<_, (GraphModel, QueryErrorModel)>(
                (changed(*final(graph), *final(summary), sofar), ()),
            ),
            Err(error) => Err((final(graph)@, error@)),
        }),
{
    let ghost start = changed(*graph, *summary, sofar);
    let mut at: usize = 0;
    while at < items.len()
        invariant
            at <= items@.len(),
            start == changed(*old(graph), *old(summary), sofar),
            items_removed(start, items@, row@, 0, range) == items_removed(
                changed(*graph, *summary, sofar),
                items@,
                row@,
                at as int,
                range,
            ),
        decreases items@.len() - at,
    {
        let name = remove_variable(&items[at]);
        let bound = match row.get(name) {
            None => {
                return Err(not_bound(name));
            }
            Some(bound) => copy_value(bound),
        };
        match remove_item(graph, summary, &items[at], name, &bound, range) {
            Err(error) => {
                return Err(error);
            }
            Ok(_) => {}
        }
        at = at + 1;
    }
    Ok(())
}

fn remove_rows(
    graph: &mut Graph,
    summary: &mut WriteSummary,
    items: &Vec<RemoveItem>,
    rows: &Vec<Bindings>,
    range: SourceRange,
    Ghost(sofar): Ghost<Seq<Seq<u8>>>,
) -> (made: Result<(), QueryError>)
    ensures
        rows_removed(changed(*old(graph), *old(summary), sofar), items@, views(rows@), 0, range)
            == (match made {
            Ok(_) => Ok::<_, (GraphModel, QueryErrorModel)>(
                (changed(*final(graph), *final(summary), sofar), ()),
            ),
            Err(error) => Err((final(graph)@, error@)),
        }),
{
    let ghost start = changed(*graph, *summary, sofar);
    let ghost models = views(rows@);
    let mut at: usize = 0;
    while at < rows.len()
        invariant
            at <= rows@.len(),
            start == changed(*old(graph), *old(summary), sofar),
            models == views(rows@),
            rows_removed(start, items@, models, 0, range) == rows_removed(
                changed(*graph, *summary, sofar),
                items@,
                models,
                at as int,
                range,
            ),
        decreases rows@.len() - at,
    {
        assert(models[at as int] == rows@[at as int]@);
        match remove_items(graph, summary, items, &rows[at], range, Ghost(sofar)) {
            Err(error) => {
                return Err(error);
            }
            Ok(_) => {}
        }
        at = at + 1;
    }
    Ok(())
}

fn delete_values(
    graph: &mut Graph,
    summary: &mut WriteSummary,
    values: &Vec<QueryValue>,
    detach: bool,
    range: SourceRange,
    Ghost(sofar): Ghost<Seq<Seq<u8>>>,
) -> (made: Result<(), QueryError>)
    ensures
        values_deleted(
            changed(*old(graph), *old(summary), sofar),
            views(values@),
            0,
            detach,
            range,
        ) == (match made {
            Ok(_) => Ok::<_, (GraphModel, QueryErrorModel)>(
                (changed(*final(graph), *final(summary), sofar), ()),
            ),
            Err(error) => Err((final(graph)@, error@)),
        }),
{
    let ghost start = changed(*graph, *summary, sofar);
    let ghost models = views(values@);
    let mut at: usize = 0;
    while at < values.len()
        invariant
            at <= values@.len(),
            start == changed(*old(graph), *old(summary), sofar),
            models == views(values@),
            values_deleted(start, models, 0, detach, range) == values_deleted(
                changed(*graph, *summary, sofar),
                models,
                at as int,
                detach,
                range,
            ),
        decreases values@.len() - at,
    {
        assert(models[at as int] == values@[at as int]@);
        match delete_value(graph, summary, &values[at], detach, range) {
            Err(error) => {
                return Err(error);
            }
            Ok(_) => {}
        }
        at = at + 1;
    }
    Ok(())
}

fn delete_rows(
    graph: &mut Graph,
    summary: &mut WriteSummary,
    values: &Vec<Vec<QueryValue>>,
    detach: bool,
    range: SourceRange,
    Ghost(sofar): Ghost<Seq<Seq<u8>>>,
) -> (made: Result<(), QueryError>)
    ensures
        rows_deleted(
            changed(*old(graph), *old(summary), sofar),
            row_models(values@),
            0,
            detach,
            range,
        ) == (match made {
            Ok(_) => Ok::<_, (GraphModel, QueryErrorModel)>(
                (changed(*final(graph), *final(summary), sofar), ()),
            ),
            Err(error) => Err((final(graph)@, error@)),
        }),
{
    let ghost start = changed(*graph, *summary, sofar);
    let ghost models = row_models(values@);
    let mut at: usize = 0;
    while at < values.len()
        invariant
            at <= values@.len(),
            start == changed(*old(graph), *old(summary), sofar),
            models == row_models(values@),
            rows_deleted(start, models, 0, detach, range) == rows_deleted(
                changed(*graph, *summary, sofar),
                models,
                at as int,
                detach,
                range,
            ),
        decreases values@.len() - at,
    {
        assert(models[at as int] == views(values@[at as int]@));
        match delete_values(graph, summary, &values[at], detach, range, Ghost(sofar)) {
            Err(error) => {
                return Err(error);
            }
            Ok(_) => {}
        }
        at = at + 1;
    }
    Ok(())
}

// -- Clauses -----------------------------------------------------------------------

/// The rows a clause leaves, and the columns it yields where it is a call.
pub type Rows = (Seq<Scope>, Option<Seq<Seq<char>>>);

/// What reading came to, as a step that changes nothing.
pub open spec fn read_step(state: Changed, read: Result<Seq<Scope>, QueryErrorModel>) -> Step<Rows> {
    match read {
        Err(wrong) => Err((state.graph, wrong)),
        Ok(rows) => Ok((state, (rows, None))),
    }
}

/// What a write came to, as a step that leaves rows.
pub open spec fn write_step(wrote: Step<()>, rows: Seq<Scope>) -> Step<Rows> {
    match wrote {
        Err(wrong) => Err(wrong),
        Ok((state, _)) => Ok((state, (rows, None))),
    }
}

/// What creating came to, as a step that leaves rows.
pub open spec fn create_step(wrote: Step<Seq<Scope>>) -> Step<Rows> {
    match wrote {
        Err(wrong) => Err(wrong),
        Ok((state, rows)) => Ok((state, (rows, None))),
    }
}

/// What a clause comes to. `asked` counts the questions whether to stop.
#[verifier::opaque]
pub open spec fn clause_run(
    setting: Setting,
    state: Changed,
    rows: Seq<Scope>,
    clause: Clause,
    asked: int,
    fate: Fate,
) -> Step<Rows> {
    let world = setting.world(state.graph);
    match clause {
        Clause::Match { optional, patterns, predicate } => read_step(
            state,
            rows_matched(
                world,
                optional,
                patterns@,
                predicate,
                rows,
                0,
                asked,
                fate,
                Seq::empty(),
            ),
        ),
        Clause::Unwind { list, variable } => read_step(
            state,
            rows_unwound(world, list, variable@, rows, 0, Seq::empty()),
        ),
        Clause::With(projection) => match projected(world, projection, rows) {
            Err(wrong) => Err((state.graph, wrong)),
            Ok(found) => Ok(
                (state, (scopes_of_rows(names_of_columns(projection.items@), found), None)),
            ),
        },
        Clause::Call(call) => match called_rows(world, call, rows) {
            Err(wrong) => Err((state.graph, wrong)),
            Ok((names, found)) => Ok((state, (found, Some(names)))),
        },
        Clause::Create { patterns, range } => match rows_evaluated(
            world,
            patterns@,
            rows,
            0,
            Seq::empty(),
        ) {
            Err(wrong) => Err((state.graph, wrong)),
            Ok(values) => create_step(
                rows_created(
                    state,
                    patterns@,
                    rows,
                    values,
                    0,
                    range,
                    fate.minted,
                    Seq::empty(),
                ),
            ),
        },
        Clause::Merge { pattern, range } => create_step(
            rows_merged(setting, state, pattern, rows, 0, range, fate.minted, Seq::empty()),
        ),
        Clause::Assign { items, range } => match assignments_evaluated(
            world,
            items@,
            rows,
            0,
            Seq::empty(),
        ) {
            Err(wrong) => Err((state.graph, wrong)),
            Ok(values) => write_step(
                rows_assigned(state, items@, rows, values, 0, range),
                rows,
            ),
        },
        Clause::Remove { items, range } => write_step(
            rows_removed(state, items@, rows, 0, range),
            rows,
        ),
        Clause::Delete { detach, targets, range } => match targets_evaluated(
            world,
            targets@,
            rows,
            0,
            Seq::empty(),
        ) {
            Err(wrong) => Err((state.graph, wrong)),
            Ok(values) => write_step(rows_deleted(state, values, 0, detach, range), rows),
        },
    }
}

/// How often a clause asks whether to stop, where it is not told to: once for each row it
/// matches.
pub open spec fn questions(clause: Clause, rows: int) -> int {
    match clause {
        Clause::Match { .. } => rows,
        _ => 0,
    }
}

struct Left {
    rows: Vec<Bindings>,
    columns: Option<Vec<String>>,
}

impl View for Left {
    type V = Rows;

    closed spec fn view(&self) -> Rows {
        (
            views(self.rows@),
            match self.columns {
                Some(names) => Some(views(names@)),
                None => None,
            },
        )
    }
}

/// The model of what a step came to.
spec fn step_model<T: View>(
    made: Result<T, QueryError>,
    graph: Graph,
    summary: WriteSummary,
    minted: Seq<Seq<u8>>,
) -> Step<T::V> {
    match made {
        Ok(found) => Ok((changed(graph, summary, minted), found@)),
        Err(error) => Err((graph@, error@)),
    }
}

fn only_rows(rows: Vec<Bindings>) -> (left: Left)
    ensures
        left@ == (views(rows@), None::<Seq<Seq<char>>>),
{
    Left { rows, columns: None }
}

fn run_reading<'a, C: ShouldStop + ?Sized>(
    run: &Run<'a, C>,
    graph: &Graph,
    clause: &Clause,
    rows: &Vec<Bindings>,
    Ghost(known): Ghost<Known>,
    Ghost(summary): Ghost<WriteSummary>,
) -> (made: (Result<Left, QueryError>, Ghost<Known>))
    requires
        run@.linked.len() < u32::MAX,
        known.stop is None,
        match *clause {
            Clause::Match { .. } => true,
            Clause::Unwind { .. } => true,
            Clause::With(_) => true,
            Clause::Call(_) => true,
            _ => false,
        },
    ensures
        follows(known, made.1@),
        made.1@.minted == known.minted,
        told(run.cancel, known, made.1@),
        made.0 is Ok ==> made.1@ == (Known {
            asked: known.asked + questions(*clause, rows@.len() as int),
            ..known
        }),
        forall|fate: Fate| #[trigger]
            leads(fate, made.1@, made.0 is Ok) ==> clause_run(
                run@,
                changed(*graph, summary, known.minted),
                views(rows@),
                *clause,
                known.asked,
                fate,
            ) == step_model(made.0, *graph, summary, known.minted),
{
    proof {
        reveal(clause_run);
    }
    match clause {
        Clause::Match { optional, patterns, predicate } => {
            let (made, Ghost(later)) = run.reader(graph).run_match(
                *optional,
                patterns,
                predicate,
                rows,
                run.cancel,
                Ghost(known),
            );
            match made {
                Err(error) => (Err(error), Ghost(later)),
                Ok(found) => (Ok(only_rows(found)), Ghost(later)),
            }
        }
        Clause::Unwind { list, variable } => match run.reader(graph).run_unwind(
            list,
            variable,
            rows,
        ) {
            Err(error) => (Err(error), Ghost(known)),
            Ok(found) => (Ok(only_rows(found)), Ghost(known)),
        },
        Clause::With(projection) => match run.reader(graph).project(projection, rows) {
            Err(error) => (Err(error), Ghost(known)),
            Ok((names, found)) => (Ok(only_rows(open_scopes(&names, &found))), Ghost(known)),
        },
        Clause::Call(call) => match run.reader(graph).run_call(call, rows) {
            Err(error) => (Err(error), Ghost(known)),
            Ok((names, found)) => (
                Ok(Left { rows: found, columns: Some(names) }),
                Ghost(known),
            ),
        },
        _ => (Ok(only_rows(Vec::new())), Ghost(known)),
    }
}

fn copy_rows(rows: &Vec<Bindings>) -> (copy: Vec<Bindings>)
    ensures
        views(copy@) == views(rows@),
{
    crate::copies::copy_all(rows)
}

fn run_writing<'a, C: ShouldStop + ?Sized>(
    run: &Run<'a, C>,
    graph: &mut Graph,
    minter: &mut Minter,
    summary: &mut WriteSummary,
    clause: &Clause,
    rows: &Vec<Bindings>,
    Ghost(known): Ghost<Known>,
) -> (made: (Result<Left, QueryError>, Ghost<Known>))
    requires
        run@.linked.len() < u32::MAX,
        known.stop is None,
        match *clause {
            Clause::Match { .. } => false,
            Clause::Unwind { .. } => false,
            Clause::With(_) => false,
            Clause::Call(_) => false,
            _ => true,
        },
    ensures
        issued_on(*old(minter), *final(minter), known.minted, made.1@.minted),
        made.1@ == (Known { minted: made.1@.minted, ..known }),
        forall|fate: Fate| #[trigger]
            leads(fate, made.1@, made.0 is Ok) ==> clause_run(
                run@,
                changed(*old(graph), *old(summary), known.minted),
                views(rows@),
                *clause,
                known.asked,
                fate,
            ) == step_model(made.0, *final(graph), *final(summary), made.1@.minted),
{
    proof {
        reveal(clause_run);
        issued_still(*minter, known.minted);
    }
    match clause {
        Clause::Create { patterns, range } => {
            let values = match run.reader(graph).rows_values(patterns, rows) {
                Err(error) => {
                    return (Err(error), Ghost(known));
                }
                Ok(values) => values,
            };
            let (made, Ghost(now)) = create_rows(
                graph,
                minter,
                summary,
                patterns,
                rows,
                &values,
                *range,
                Ghost(known.minted),
            );
            let ghost later = Known { minted: now, ..known };
            match made {
                Err(error) => (Err(error), Ghost(later)),
                Ok(next) => (Ok(only_rows(next)), Ghost(later)),
            }
        }
        Clause::Merge { pattern, range } => {
            let (made, Ghost(now)) = merge_rows(
                run,
                graph,
                minter,
                summary,
                pattern,
                rows,
                *range,
                Ghost(known.minted),
            );
            let ghost later = Known { minted: now, ..known };
            match made {
                Err(error) => (Err(error), Ghost(later)),
                Ok(next) => (Ok(only_rows(next)), Ghost(later)),
            }
        }
        Clause::Assign { items, range } => {
            let values = match run.reader(graph).assignment_values(items, rows) {
                Err(error) => {
                    return (Err(error), Ghost(known));
                }
                Ok(values) => values,
            };
            match assign_rows(graph, summary, items, rows, &values, *range, Ghost(known.minted)) {
                Err(error) => (Err(error), Ghost(known)),
                Ok(_) => (Ok(only_rows(copy_rows(rows))), Ghost(known)),
            }
        }
        Clause::Remove { items, range } => {
            match remove_rows(graph, summary, items, rows, *range, Ghost(known.minted)) {
                Err(error) => (Err(error), Ghost(known)),
                Ok(_) => (Ok(only_rows(copy_rows(rows))), Ghost(known)),
            }
        }
        Clause::Delete { detach, targets, range } => {
            let values = match run.reader(graph).target_values(targets, rows) {
                Err(error) => {
                    return (Err(error), Ghost(known));
                }
                Ok(values) => values,
            };
            match delete_rows(graph, summary, &values, *detach, *range, Ghost(known.minted)) {
                Err(error) => (Err(error), Ghost(known)),
                Ok(_) => (Ok(only_rows(copy_rows(rows))), Ghost(known)),
            }
        }
        _ => (Ok(only_rows(Vec::new())), Ghost(known)),
    }
}

// -- Parts -------------------------------------------------------------------------

/// What the clauses from `at` on come to. A clause asks whether to stop before it runs.
///
/// Beside the rows and the columns of a trailing call stands how often it was asked.
pub open spec fn clauses_run(
    setting: Setting,
    state: Changed,
    left: Rows,
    clauses: Seq<Clause>,
    at: int,
    asked: int,
    fate: Fate,
) -> Step<(Rows, int)>
    decreases clauses.len() - at,
{
    if at < 0 || at >= clauses.len() {
        Ok((state, (left, asked)))
    } else {
        match asks(fate, asked) {
            Some(stop) => Err((state.graph, stop)),
            None => match clause_run(setting, state, left.0, clauses[at], asked + 1, fate) {
                Err(wrong) => Err(wrong),
                Ok((next, found)) => clauses_run(
                    setting,
                    next,
                    found,
                    clauses,
                    at + 1,
                    asked + 1 + questions(clauses[at], left.0.len() as int),
                    fate,
                ),
            },
        }
    }
}

/// What a row holds under names, null where nothing is bound.
pub open spec fn row_under(row: Scope, names: Seq<Seq<char>>) -> Seq<QueryModel> {
    Seq::new(
        names.len(),
        |i: int|
            match found_in(row, names[i]) {
                Some(value) => value,
                None => QueryModel::Null,
            },
    )
}

/// The columns and the rows of a table.
pub type Table = (Seq<Seq<char>>, Seq<Seq<QueryModel>>);

/// What a part returns: what its `RETURN` makes, else what a trailing call yields, else
/// nothing.
pub open spec fn part_result(world: World, result: Option<Projection>, left: Rows) -> Result<
    Table,
    QueryErrorModel,
> {
    match result {
        Some(projection) => match projected(world, projection, left.0) {
            Err(wrong) => Err(wrong),
            Ok(found) => Ok((names_of_columns(projection.items@), found)),
        },
        None => match left.1 {
            Some(names) => Ok(
                (names, Seq::new(left.0.len(), |i: int| row_under(left.0[i], names))),
            ),
            None => Ok((Seq::empty(), Seq::empty())),
        },
    }
}

/// What a part comes to, and how often it was asked by then.
#[verifier::opaque]
pub open spec fn part_run(
    setting: Setting,
    state: Changed,
    part: QueryPart,
    asked: int,
    fate: Fate,
) -> Step<(Table, int)> {
    match clauses_run(
        setting,
        state,
        (seq![Map::empty()], None),
        part.clauses@,
        0,
        asked,
        fate,
    ) {
        Err(wrong) => Err(wrong),
        Ok((next, (left, count))) => match part_result(
            setting.world(next.graph),
            part.result,
            left,
        ) {
            Err(wrong) => Err((next.graph, wrong)),
            Ok(table) => Ok((next, (table, count))),
        },
    }
}

/// What the parts from `at` on come to, behind what is before them. The columns are those of
/// the first part.
pub open spec fn parts_run(
    setting: Setting,
    state: Changed,
    parts: Seq<QueryPart>,
    at: int,
    asked: int,
    before: Table,
    fate: Fate,
) -> Step<Table>
    decreases parts.len() - at,
{
    if at < 0 || at >= parts.len() {
        Ok((state, before))
    } else {
        match asks(fate, asked) {
            Some(stop) => Err((state.graph, stop)),
            None => match part_run(setting, state, parts[at], asked + 1, fate) {
                Err(wrong) => Err(wrong),
                Ok((next, (table, count))) => parts_run(
                    setting,
                    next,
                    parts,
                    at + 1,
                    count,
                    (
                        if at == 0 {
                            table.0
                        } else {
                            before.0
                        },
                        before.1 + table.1,
                    ),
                    fate,
                ),
            },
        }
    }
}

fn run_clauses<'a, C: ShouldStop + ?Sized>(
    run: &Run<'a, C>,
    graph: &mut Graph,
    minter: &mut Minter,
    summary: &mut WriteSummary,
    clauses: &Vec<Clause>,
    Ghost(known): Ghost<Known>,
) -> (made: (Result<Left, QueryError>, Ghost<Known>))
    requires
        run@.linked.len() < u32::MAX,
        known.stop is None,
    ensures
        follows(known, made.1@),
        issued_on(*old(minter), *final(minter), known.minted, made.1@.minted),
        told(run.cancel, known, made.1@),
        made.0 is Ok ==> made.1@.stop is None,
        forall|fate: Fate| #[trigger]
            leads(fate, made.1@, made.0 is Ok) ==> clauses_run(
                run@,
                changed(*old(graph), *old(summary), known.minted),
                (seq![Map::empty()], None),
                clauses@,
                0,
                known.asked,
                fate,
            ) == (match made.0 {
                Ok(left) => Ok::<_, (GraphModel, QueryErrorModel)>(
                    (
                        changed(*final(graph), *final(summary), made.1@.minted),
                        (left@, made.1@.asked),
                    ),
                ),
                Err(error) => Err((final(graph)@, error@)),
            }),
{
    broadcast use {leads_before, follows_on};

    let ghost start = changed(*graph, *summary, known.minted);
    let ghost issuer = *minter;
    let mut first: Vec<Bindings> = Vec::new();
    first.push(Bindings::new());
    assert(views(first@) =~= seq![Map::empty()]);
    let mut left = only_rows(first);
    let ghost opening = left@;
    let ghost mut here = known;
    proof {
        issued_still(issuer, known.minted);
    }
    let mut at: usize = 0;
    while at < clauses.len()
        invariant
            at <= clauses@.len(),
            run@.linked.len() < u32::MAX,
            here.stop is None,
            issuer == *old(minter),
            start == changed(*old(graph), *old(summary), known.minted),
            opening == (seq![Map::<Seq<char>, QueryModel>::empty()], None::<Seq<Seq<char>>>),
            follows(known, here),
            told(run.cancel, known, here),
            issued_on(issuer, *minter, known.minted, here.minted),
            forall|fate: Fate| #[trigger]
                leads(fate, here, true) ==> clauses_run(
                    run@,
                    start,
                    opening,
                    clauses@,
                    0,
                    known.asked,
                    fate,
                ) == clauses_run(
                    run@,
                    changed(*graph, *summary, here.minted),
                    left@,
                    clauses@,
                    at as int,
                    here.asked,
                    fate,
                ),
        decreases clauses@.len() - at,
    {
        broadcast use {leads_before, follows_on};

        let (stop, Ghost(asked)) = stop_if_asked(run.cancel, Ghost(here));
        match stop {
            Err(error) => {
                return (Err(error), Ghost(asked));
            }
            Ok(_) => {}
        }
        let ghost before = *minter;
        assert(views(left.rows@).len() == left.rows@.len());
        let reads = match &clauses[at] {
            Clause::Match { .. } => true,
            Clause::Unwind { .. } => true,
            Clause::With(_) => true,
            Clause::Call(_) => true,
            _ => false,
        };
        if reads {
            let (made, Ghost(later)) = run_reading(
                run,
                graph,
                &clauses[at],
                &left.rows,
                Ghost(asked),
                Ghost(*summary),
            );
            match made {
                Err(error) => {
                    return (Err(error), Ghost(later));
                }
                Ok(found) => {
                    left = found;
                }
            }
            proof {
                here = later;
            }
        } else {
            let (made, Ghost(later)) = run_writing(
                run,
                graph,
                minter,
                summary,
                &clauses[at],
                &left.rows,
                Ghost(asked),
            );
            proof {
                issued_chain(issuer, before, *minter, known.minted, asked.minted, later.minted);
                assert(follows(asked, later));
            }
            match made {
                Err(error) => {
                    return (Err(error), Ghost(later));
                }
                Ok(found) => {
                    left = found;
                }
            }
            proof {
                here = later;
            }
        }
        at = at + 1;
    }
    (Ok(left), Ghost(here))
}

fn rows_under(rows: &Vec<Bindings>, names: &Vec<String>) -> (found: Vec<Vec<QueryValue>>)
    ensures
        row_models(found@) == Seq::new(
            rows@.len(),
            |i: int| row_under(rows@[i]@, views(names@)),
        ),
{
    let ghost all = Seq::new(rows@.len(), |i: int| row_under(rows@[i]@, views(names@)));
    let mut found: Vec<Vec<QueryValue>> = Vec::new();
    let mut at: usize = 0;
    while at < rows.len()
        invariant
            at <= rows@.len(),
            all == Seq::new(rows@.len(), |i: int| row_under(rows@[i]@, views(names@))),
            row_models(found@) =~= all.take(at as int),
        decreases rows@.len() - at,
    {
        let ghost wanted = row_under(rows@[at as int]@, views(names@));
        let mut row: Vec<QueryValue> = Vec::new();
        let mut place: usize = 0;
        while place < names.len()
            invariant
                at < rows@.len(),
                place <= names@.len(),
                wanted == row_under(rows@[at as int]@, views(names@)),
                views(row@) =~= wanted.take(place as int),
            decreases names@.len() - place,
        {
            assert(views(names@)[place as int] == names@[place as int]@);
            let value = match rows[at].get(names[place].as_str()) {
                Some(value) => copy_value(value),
                None => QueryValue::Null,
            };
            proof {
                views_push(row@, value);
            }
            row.push(value);
            place = place + 1;
        }
        assert(wanted.take(wanted.len() as int) =~= wanted);
        proof {
            row_models_push(found@, row);
        }
        found.push(row);
        at = at + 1;
    }
    assert(all.take(all.len() as int) =~= all);
    found
}

fn finish_part<'a, C: ShouldStop + ?Sized>(
    run: &Run<'a, C>,
    graph: &Graph,
    result: &Option<Projection>,
    left: Left,
) -> (made: Result<(Vec<String>, Vec<Vec<QueryValue>>), QueryError>)
    ensures
        part_result(run@.world(graph@), *result, left@) == (match made {
            Ok(table) => Ok::<_, QueryErrorModel>((views(table.0@), row_models(table.1@))),
            Err(error) => Err(error@),
        }),
{
    match result {
        Some(projection) => run.reader(graph).project(projection, &left.rows),
        None => match left.columns {
            Some(names) => {
                let found = rows_under(&left.rows, &names);
                assert(Seq::new(
                    left.rows@.len(),
                    |i: int| row_under(left.rows@[i]@, views(names@)),
                ) =~= Seq::new(
                    left@.0.len(),
                    |i: int| row_under(left@.0[i], views(names@)),
                ));
                Ok((names, found))
            }
            None => {
                let names: Vec<String> = Vec::new();
                let rows: Vec<Vec<QueryValue>> = Vec::new();
                assert(views(names@) =~= Seq::<Seq<char>>::empty());
                assert(row_models(rows@) =~= Seq::<Seq<QueryModel>>::empty());
                Ok((names, rows))
            }
        },
    }
}

fn run_part<'a, C: ShouldStop + ?Sized>(
    run: &Run<'a, C>,
    graph: &mut Graph,
    minter: &mut Minter,
    summary: &mut WriteSummary,
    part: &QueryPart,
    Ghost(known): Ghost<Known>,
) -> (made: (Result<(Vec<String>, Vec<Vec<QueryValue>>), QueryError>, Ghost<Known>))
    requires
        run@.linked.len() < u32::MAX,
        known.stop is None,
    ensures
        follows(known, made.1@),
        issued_on(*old(minter), *final(minter), known.minted, made.1@.minted),
        told(run.cancel, known, made.1@),
        made.0 is Ok ==> made.1@.stop is None,
        forall|fate: Fate| #[trigger]
            leads(fate, made.1@, made.0 is Ok) ==> part_run(
                run@,
                changed(*old(graph), *old(summary), known.minted),
                *part,
                known.asked,
                fate,
            ) == (match made.0 {
                Ok(table) => Ok::<_, (GraphModel, QueryErrorModel)>(
                    (
                        changed(*final(graph), *final(summary), made.1@.minted),
                        ((views(table.0@), row_models(table.1@)), made.1@.asked),
                    ),
                ),
                Err(error) => Err((final(graph)@, error@)),
            }),
{
    broadcast use {leads_before, follows_on};

    proof {
        reveal(part_run);
    }
    let (made, Ghost(later)) = run_clauses(
        run,
        graph,
        minter,
        summary,
        &part.clauses,
        Ghost(known),
    );
    assert(follows(later, later));
    match made {
        Err(error) => (Err(error), Ghost(later)),
        Ok(left) => match finish_part(run, graph, &part.result, left) {
            Err(error) => (Err(error), Ghost(later)),
            Ok(table) => (Ok(table), Ghost(later)),
        },
    }
}

// -- Queries -----------------------------------------------------------------------

/// What a query produced.
#[derive(Debug, PartialEq)]
pub struct QueryResult {
    /// Column names, in projection order.
    pub columns: Vec<String>,
    /// Rows, in the order of the columns.
    ///
    /// Ordered only when the query contained `ORDER BY`.
    pub rows: Vec<Vec<QueryValue>>,
    /// Non-fatal findings, such as a label that no record carries.
    pub warnings: Vec<Diagnostic>,
    /// What the query changed.
    pub writes: WriteSummary,
}

/// What a query produced.
pub struct ResultModel {
    /// Column names.
    pub columns: Seq<Seq<char>>,
    /// Rows.
    pub rows: Seq<Seq<QueryModel>>,
    /// Non-fatal findings.
    pub warnings: Seq<DiagnosticModel>,
    /// What the query changed.
    pub writes: WriteSummary,
}

impl View for QueryResult {
    type V = ResultModel;

    open spec fn view(&self) -> ResultModel {
        ResultModel {
            columns: views(self.columns@),
            rows: row_models(self.rows@),
            warnings: views(self.warnings@),
            writes: self.writes,
        }
    }
}

impl QueryResult {
    /// Number of rows produced.
    pub fn row_count(&self) -> (count: usize)
        ensures
            count == self@.rows.len(),
    {
        self.rows.len()
    }
}

/// Whether one of the first `count` unions removes duplicates.
pub open spec fn removes_duplicates(union_all: Seq<bool>, count: int) -> bool
    decreases count,
{
    count > 0 && (!union_all[count - 1] || removes_duplicates(union_all, count - 1))
}

/// The rows from `at` on that are the same as none before, behind those before them.
pub open spec fn unique_rows(
    rows: Seq<Seq<QueryModel>>,
    at: int,
    before: Seq<Seq<QueryModel>>,
) -> Seq<Seq<QueryModel>>
    decreases rows.len() - at,
{
    if at < 0 || at >= rows.len() {
        before
    } else {
        unique_rows(
            rows,
            at + 1,
            if seen(before, before.len() as int, rows[at]) {
                before
            } else {
                before.push(rows[at])
            },
        )
    }
}

/// Whether a node of the graph carries a label.
pub open spec fn label_present(nodes: Seq<NodeModel>, label: Seq<char>) -> bool {
    exists|i: int| 0 <= i < nodes.len() && (#[trigger] nodes[i]).labels.contains(label)
}

/// What is said of a label that a query looks for and no record carries.
pub open spec fn label_warning(label: Seq<char>) -> DiagnosticModel {
    DiagnosticModel {
        code: DiagnosticCode::CypherUnknownLabel,
        severity: Severity::Warning,
        message: "no record in this database carries the label `"@ + label + "`"@,
        source: None,
        range: None,
        details: Seq::empty(),
    }
}

/// A warning for each of the first `count` labels that no node carries.
pub open spec fn label_warnings(labels: Seq<Seq<char>>, nodes: Seq<NodeModel>, count: int) -> Seq<
    DiagnosticModel,
>
    decreases count,
{
    if count <= 0 {
        Seq::empty()
    } else if label_present(nodes, labels[count - 1]) {
        label_warnings(labels, nodes, count - 1)
    } else {
        label_warnings(labels, nodes, count - 1).push(label_warning(labels[count - 1]))
    }
}

/// What a query comes to: the graph by then, and what it produced or why it was refused.
#[verifier::opaque]
pub open spec fn query_run(query: Query, graph: GraphModel, setting: Setting, fate: Fate) -> (
    GraphModel,
    Result<ResultModel, QueryErrorModel>,
) {
    match parts_run(
        setting,
        Changed { graph, summary: WriteSummary::nothing(), used: 0 },
        query.parts@,
        0,
        0,
        (Seq::empty(), Seq::empty()),
        fate,
    ) {
        Err((after, wrong)) => (after, Err(wrong)),
        Ok((state, (columns, rows))) => (
            state.graph,
            Ok(
                ResultModel {
                    columns,
                    rows: if removes_duplicates(query.union_all@, query.union_all@.len() as int) {
                        unique_rows(rows, 0, Seq::empty())
                    } else {
                        rows
                    },
                    warnings: {
                        let labels = labels_of_parts(query.parts@, query.parts@.len() as int);
                        label_warnings(labels, state.graph.nodes, labels.len() as int)
                    },
                    writes: state.summary,
                },
            ),
        ),
    }
}

/// The model of what a query produced or why it was refused.
pub open spec fn outcome_model(made: Result<QueryResult, QueryError>) -> Result<
    ResultModel,
    QueryErrorModel,
> {
    match made {
        Ok(found) => Ok(found@),
        Err(error) => Err(error@),
    }
}

/// Whether a fate is one that a query may meet: every minted identifier is a UUID version 7,
/// and it is told to stop only by what may tell it.
pub open spec fn possible(fate: Fate, may_stop: bool) -> bool {
    &&& forall|i: int| version_seven(#[trigger] (fate.minted)(i))
    &&& fate.stop is Some ==> may_stop
}

/// Whether a fate is what something that may ask a query to stop may have answered: no to
/// every question in front of the one that ends it, and yes to that one, with such a reason.
pub open spec fn answered<C: ShouldStop + ?Sized>(cancel: &C, fate: Fate) -> bool {
    fate.stop matches Some((at, why)) ==> {
        &&& at > 0 ==> call_ensures(C::should_stop, (cancel,), false)
        &&& stops_for(cancel, why)
    }
}

/// Whether a query was refused because it was asked to stop, with a reason that it may have
/// been given.
pub open spec fn refused_by<C: ShouldStop + ?Sized>(
    cancel: &C,
    made: Result<QueryResult, QueryError>,
) -> bool {
    exists|text: String| #[trigger]
        call_ensures(C::reason, (cancel,), text) && (made matches Err(error) && error@ == cancelled(
            text@,
        ))
}

fn is_distinct(union_all: &Vec<bool>) -> (answer: bool)
    ensures
        answer == removes_duplicates(union_all@, union_all@.len() as int),
{
    let mut at: usize = union_all.len();
    while at > 0
        invariant
            at <= union_all@.len(),
            removes_duplicates(union_all@, union_all@.len() as int) == removes_duplicates(
                union_all@,
                at as int,
            ),
        decreases at,
    {
        if !union_all[at - 1] {
            return true;
        }
        at = at - 1;
    }
    false
}

fn is_seen(rows: &Vec<Vec<QueryValue>>, row: &Vec<QueryValue>) -> (answer: bool)
    ensures
        answer == seen(row_models(rows@), rows@.len() as int, views(row@)),
{
    let ghost models = row_models(rows@);
    let mut at: usize = rows.len();
    while at > 0
        invariant
            at <= rows@.len(),
            models == row_models(rows@),
            seen(models, rows@.len() as int, views(row@)) == seen(models, at as int, views(row@)),
        decreases at,
    {
        assert(models[at - 1] == views(rows@[at - 1]@));
        match compare_rows(&rows[at - 1], row) {
            Relation::Same => {
                return true;
            }
            _ => {}
        }
        at = at - 1;
    }
    false
}

fn keep_unique(rows: &Vec<Vec<QueryValue>>) -> (kept: Vec<Vec<QueryValue>>)
    ensures
        row_models(kept@) == unique_rows(row_models(rows@), 0, Seq::empty()),
{
    let ghost models = row_models(rows@);
    let mut kept: Vec<Vec<QueryValue>> = Vec::new();
    assert(row_models(kept@) =~= Seq::<Seq<QueryModel>>::empty());
    let mut at: usize = 0;
    while at < rows.len()
        invariant
            at <= rows@.len(),
            models == row_models(rows@),
            unique_rows(models, 0, Seq::empty()) == unique_rows(
                models,
                at as int,
                row_models(kept@),
            ),
        decreases rows@.len() - at,
    {
        assert(models[at as int] == views(rows@[at as int]@));
        assert(row_models(kept@).len() == kept@.len());
        if !is_seen(&kept, &rows[at]) {
            let row = copy_values(&rows[at]);
            proof {
                row_models_push(kept@, row);
            }
            kept.push(row);
        }
        at = at + 1;
    }
    kept
}

fn carries_label(graph: &Graph, label: &str) -> (answer: bool)
    ensures
        answer == label_present(graph@.nodes, label@),
{
    let ghost models = graph@.nodes;
    let mut at: usize = 0;
    while at < graph.nodes.len()
        invariant
            at <= graph.nodes@.len(),
            models == graph@.nodes,
            forall|i: int| 0 <= i < at ==> !(#[trigger] models[i]).labels.contains(label@),
        decreases graph.nodes@.len() - at,
    {
        assert(models[at as int] == graph.nodes@[at as int]@);
        let labels = &graph.nodes[at].labels;
        let mut place: usize = 0;
        while place < labels.len()
            invariant
                place <= labels@.len(),
                at < models.len(),
                models == graph@.nodes,
                models[at as int].labels == views(labels@),
                forall|i: int| 0 <= i < place ==> (#[trigger] views(labels@)[i]) != label@,
            decreases labels@.len() - place,
        {
            assert(views(labels@)[place as int] == labels@[place as int]@);
            if crate::text::same(labels[place].as_str(), label) {
                assert(models[at as int].labels.contains(label@));
                return true;
            }
            place = place + 1;
        }
        at = at + 1;
    }
    false
}

fn warn_of_labels(query: &Query, graph: &Graph) -> (warnings: Vec<Diagnostic>)
    ensures
        views(warnings@) == ({
            let labels = labels_of_parts(query.parts@, query.parts@.len() as int);
            label_warnings(labels, graph@.nodes, labels.len() as int)
        }),
{
    let labels = query.required_labels();
    let ghost models = views(labels@);
    let ghost nodes = graph@.nodes;
    let mut warnings: Vec<Diagnostic> = Vec::new();
    assert(views(warnings@) =~= Seq::<DiagnosticModel>::empty());
    let mut at: usize = 0;
    while at < labels.len()
        invariant
            at <= labels@.len(),
            models == views(labels@),
            nodes == graph@.nodes,
            views(warnings@) == label_warnings(models, nodes, at as int),
        decreases labels@.len() - at,
    {
        assert(models[at as int] == labels@[at as int]@);
        if !carries_label(graph, labels[at].as_str()) {
            let mut message = joined(
                "no record in this database carries the label `",
                labels[at].as_str(),
            );
            message.append("`");
            proof {
                reveal_strlit("`");
                reveal_strlit("unknown label");
                assert(message@.len() > 0);
            }
            let warning = Diagnostic {
                code: DiagnosticCode::CypherUnknownLabel,
                severity: DiagnosticCode::CypherUnknownLabel.default_severity(),
                message: NonEmptyText::new_or(message.as_str(), "unknown label"),
                source: None,
                range: None,
                details: Vec::new(),
            };
            assert(warning@.details =~= Seq::<Seq<char>>::empty());
            proof {
                views_push(warnings@, warning);
            }
            warnings.push(warning);
        }
        at = at + 1;
    }
    warnings
}

fn join_tables(rows: &mut Vec<Vec<QueryValue>>, more: Vec<Vec<QueryValue>>)
    ensures
        row_models(final(rows)@) == row_models(old(rows)@) + row_models(more@),
{
    let mut rest = more;
    assert(row_models(rows@ + rest@) =~= row_models(rows@) + row_models(rest@));
    rows.append(&mut rest);
}

/// Executes a parsed query against a graph, applying any writes it contains.
///
/// A query that is meaningless is refused with [`DiagnosticCode::CypherSemanticError`]: an
/// unbound variable, a missing parameter, an unknown function or procedure, a negative
/// `SKIP` or `LIMIT`, a created node without a label, or deleting a node that still has a
/// relationship. A procedure needing a capability this build does not have is refused with
/// [`DiagnosticCode::CypherUnsupported`].
///
/// What was written before a refusal stays, and the caller decides whether to keep it.
pub fn execute(
    query: &Query,
    graph: &mut Graph,
    parameters: &Parameters,
    context: &DatabaseContext,
) -> (made: Result<QueryResult, QueryError>)
    ensures
        exists|fate: Fate|
            possible(fate, false) && #[trigger] query_run(
                *query,
                old(graph)@,
                Setting {
                    linked: Seq::empty(),
                    parameters: parameters@,
                    context: context@,
                },
                fate,
            ) == (final(graph)@, outcome_model(made)),
{
    let none: &[LinkedSource<'_>] = &[];
    assert(views(none@) =~= Seq::empty());
    execute_federated(query, graph, none, parameters, context)
}

/// Runs a query that can be asked to stop.
///
/// It is refused as [`execute`] says, and with [`DiagnosticCode::QueryCancelled`] where
/// `cancel` asks it to stop.
pub fn execute_cancellable<C: ShouldStop + ?Sized>(
    query: &Query,
    graph: &mut Graph,
    parameters: &Parameters,
    context: &DatabaseContext,
    cancel: &C,
) -> (made: Result<QueryResult, QueryError>)
    ensures
        exists|fate: Fate|
            possible(fate, cancel.may_stop()) && answered(cancel, fate) && #[trigger] query_run(
                *query,
                old(graph)@,
                Setting {
                    linked: Seq::empty(),
                    parameters: parameters@,
                    context: context@,
                },
                fate,
            ) == (final(graph)@, outcome_model(made)),
        cancel.must_stop() && query.parts@.len() > 0 ==> final(graph)@ == old(graph)@
            && refused_by(cancel, made),
{
    let none: &[LinkedSource<'_>] = &[];
    assert(views(none@) =~= Seq::empty());
    execute_federated_cancellable(query, graph, none, parameters, context, cancel)
}

/// Runs a query over the root and every linked source it was given.
///
/// A read sees the union; a write touches the root alone. It is refused as [`execute`]
/// says, and with [`DiagnosticCode::LinkedDatabaseReadOnly`] where a write names a record of
/// a linked source.
pub fn execute_federated(
    query: &Query,
    graph: &mut Graph,
    linked: &[LinkedSource<'_>],
    parameters: &Parameters,
    context: &DatabaseContext,
) -> (made: Result<QueryResult, QueryError>)
    requires
        linked@.len() < u32::MAX,
    ensures
        exists|fate: Fate|
            possible(fate, false) && #[trigger] query_run(
                *query,
                old(graph)@,
                Setting {
                    linked: views(linked@),
                    parameters: parameters@,
                    context: context@,
                },
                fate,
            ) == (final(graph)@, outcome_model(made)),
{
    execute_federated_cancellable(query, graph, linked, parameters, context, &Never)
}

/// Runs a federated query that can be asked to stop.
///
/// It is refused as [`execute_federated`] says, and with
/// [`DiagnosticCode::QueryCancelled`] where `cancel` asks it to stop.
pub fn execute_federated_cancellable<C: ShouldStop + ?Sized>(
    query: &Query,
    graph: &mut Graph,
    linked: &[LinkedSource<'_>],
    parameters: &Parameters,
    context: &DatabaseContext,
    cancel: &C,
) -> (made: Result<QueryResult, QueryError>)
    requires
        linked@.len() < u32::MAX,
    ensures
        exists|fate: Fate|
            possible(fate, cancel.may_stop()) && answered(cancel, fate) && #[trigger] query_run(
                *query,
                old(graph)@,
                Setting {
                    linked: views(linked@),
                    parameters: parameters@,
                    context: context@,
                },
                fate,
            ) == (final(graph)@, outcome_model(made)),
        cancel.must_stop() && query.parts@.len() > 0 ==> final(graph)@ == old(graph)@
            && refused_by(cancel, made),
{
    broadcast use {leads_before, follows_on};

    let run = Run { linked, parameters, context, cancel };
    let ghost setting = run@;
    let mut minter = Minter::new();
    let mut writes: WriteSummary = Default::default();
    let ghost issuer = minter;
    let ghost known = Known { minted: Seq::empty(), asked: 0, stop: None };
    let ghost start = changed(*graph, writes, known.minted);
    let ghost opening: Table = (Seq::empty(), Seq::empty());
    let ghost mut here = known;
    proof {
        issued_still(issuer, known.minted);
        Minter::issued_none(issuer);
    }
    let mut columns: Vec<String> = Vec::new();
    let mut rows: Vec<Vec<QueryValue>> = Vec::new();
    assert(views(columns@) =~= Seq::<Seq<char>>::empty());
    assert(row_models(rows@) =~= Seq::<Seq<QueryModel>>::empty());
    let mut at: usize = 0;
    while at < query.parts.len()
        invariant
            at <= query.parts@.len(),
            setting == run@,
            run.cancel == cancel,
            setting == (Setting {
                linked: views(linked@),
                parameters: parameters@,
                context: context@,
            }),
            setting.linked.len() < u32::MAX,
            known == (Known { minted: Seq::empty(), asked: 0, stop: None }),
            opening == (Seq::<Seq<char>>::empty(), Seq::<Seq<QueryModel>>::empty()),
            start == (Changed {
                graph: old(graph)@,
                summary: WriteSummary::nothing(),
                used: 0,
            }),
            here.stop is None,
            follows(known, here),
            told(cancel, known, here),
            at == 0 ==> graph@ == old(graph)@,
            at > 0 ==> call_ensures(C::should_stop, (cancel,), false),
            issuer.counter() is None,
            Minter::issued_all(issuer, issuer, Seq::empty()),
            issued_on(issuer, minter, known.minted, here.minted),
            forall|fate: Fate| #[trigger]
                leads(fate, here, true) ==> parts_run(
                    setting,
                    start,
                    query.parts@,
                    0,
                    0,
                    opening,
                    fate,
                ) == parts_run(
                    setting,
                    changed(*graph, writes, here.minted),
                    query.parts@,
                    at as int,
                    here.asked,
                    (views(columns@), row_models(rows@)),
                    fate,
                ),
        decreases query.parts@.len() - at,
    {
        broadcast use {leads_before, follows_on};

        let (stop, Ghost(asked)) = stop_if_asked(cancel, Ghost(here));
        match stop {
            Err(error) => {
                proof {
                    reveal(query_run);
                    let fate = ended(asked);
                    assert(Minter::issued_all(issuer, minter, asked.minted));
                    assert(leads(fate, asked, false));
                    assert(possible(fate, cancel.may_stop()) && answered(cancel, fate));
                    assert(query_run(*query, old(graph)@, setting, fate) == (
                        graph@,
                        Err::<ResultModel, _>(error@),
                    ));
                }
                return Err(error);
            }
            Ok(_) => {}
        }
        let ghost before = minter;
        let (made, Ghost(later)) = run_part(
            &run,
            graph,
            &mut minter,
            &mut writes,
            &query.parts[at],
            Ghost(asked),
        );
        proof {
            issued_chain(issuer, before, minter, known.minted, asked.minted, later.minted);
        }
        match made {
            Err(error) => {
                proof {
                    reveal(query_run);
                    let fate = ended(later);
                    assert(Minter::issued_all(issuer, minter, later.minted));
                    assert(leads(fate, later, false));
                    assert(possible(fate, cancel.may_stop()) && answered(cancel, fate));
                    assert(query_run(*query, old(graph)@, setting, fate) == (
                        graph@,
                        Err::<ResultModel, _>(error@),
                    ));
                }
                return Err(error);
            }
            Ok((names, found)) => {
                if at == 0 {
                    columns = names;
                }
                join_tables(&mut rows, found);
            }
        }
        proof {
            here = later;
        }
        at = at + 1;
    }
    if is_distinct(&query.union_all) {
        rows = keep_unique(&rows);
    }
    let warnings = warn_of_labels(query, graph);
    let result = QueryResult { columns, rows, warnings, writes };
    proof {
        reveal(query_run);
        let fate = Fate { minted: continued(here.minted), stop: None };
        assert(Minter::issued_all(issuer, minter, here.minted));
        assert(leads(fate, here, true));
        assert(possible(fate, cancel.may_stop()) && answered(cancel, fate));
        assert(query_run(*query, old(graph)@, setting, fate) == (
            graph@,
            Ok::<_, QueryErrorModel>(result@),
        ));
    }
    Ok(result)
}

/// What is minted where it starts with these and goes on with one version 7 UUID.
spec fn continued(minted: Seq<Seq<u8>>) -> Minted {
    |i: int|
        if 0 <= i < minted.len() {
            minted[i]
        } else {
            Seq::new(16, |k: int| if k == 6 { 0x70u8 } else { 0x80u8 })
        }
}

/// The fate that ends where it is known to.
spec fn ended(known: Known) -> Fate {
    Fate {
        minted: continued(known.minted),
        stop: match known.stop {
            Some(reason) => Some((known.asked, reason)),
            None => None,
        },
    }
}

/// The column names a projection produces, for a caller that needs them without executing.
pub fn projected_columns(projection: &Projection) -> (names: Vec<String>)
    ensures
        views(names@) == names_of_columns(projection.items@),
{
    column_names(projection)
}

// -- Laws --------------------------------------------------------------------------

/// Whether the counts tell of every change a step made.
pub open spec fn step_is_counted<T>(state: Changed, step: Step<T>) -> bool {
    step matches Ok((next, _)) ==> counts_tell(
        state.graph,
        state.summary,
        next.graph,
        next.summary,
    )
}

/// Whether a step left the graph as it was.
pub open spec fn step_changes_nothing<T>(state: Changed, step: Step<T>) -> bool {
    match step {
        Ok((next, _)) => next.graph == state.graph,
        Err((graph, _)) => graph == state.graph,
    }
}

proof fn pattern_creations_are_counted(
    state: Written,
    patterns: Seq<Pattern>,
    values: Seq<PatternModel>,
    at: int,
    range: SourceRange,
    minted: Minted,
)
    ensures
        counts_tell(
            state.graph,
            state.summary,
            patterns_created(state, patterns, values, at, range, minted).0.graph,
            patterns_created(state, patterns, values, at, range, minted).0.summary,
        ),
    decreases patterns.len() - at,
{
    if 0 <= at < patterns.len() {
        creation_is_counted(state, patterns[at], values[at], range, minted);
        let (next, made) = pattern_created(state, patterns[at], values[at], range, minted);
        if made is Ok {
            pattern_creations_are_counted(next, patterns, values, at + 1, range, minted);
        }
    }
}

proof fn row_creations_are_counted(
    state: Changed,
    patterns: Seq<Pattern>,
    rows: Seq<Scope>,
    values: Seq<Seq<PatternModel>>,
    at: int,
    range: SourceRange,
    minted: Minted,
    before: Seq<Scope>,
)
    ensures
        step_is_counted(
            state,
            rows_created(state, patterns, rows, values, at, range, minted, before),
        ),
    decreases rows.len() - at,
{
    if 0 <= at < rows.len() {
        let first = with_scope(state, rows[at]);
        pattern_creations_are_counted(first, patterns, values[at], 0, range, minted);
        let (next, made) = patterns_created(first, patterns, values[at], 0, range, minted);
        if made is Ok {
            row_creations_are_counted(
                without_scope(next),
                patterns,
                rows,
                values,
                at + 1,
                range,
                minted,
                before.push(next.scope),
            );
        }
    }
}

proof fn merges_are_counted(
    setting: Setting,
    state: Changed,
    pattern: Pattern,
    rows: Seq<Scope>,
    at: int,
    range: SourceRange,
    minted: Minted,
    before: Seq<Scope>,
)
    ensures
        step_is_counted(
            state,
            rows_merged(setting, state, pattern, rows, at, range, minted, before),
        ),
    decreases rows.len() - at,
{
    if 0 <= at < rows.len() {
        let world = setting.world(state.graph);
        if let Ok(found) = matched(world, pattern, rows[at]) {
            if found.len() > 0 {
                merges_are_counted(
                    setting,
                    state,
                    pattern,
                    rows,
                    at + 1,
                    range,
                    minted,
                    before + found,
                );
            } else if let Ok(values) = pattern_evaluated(world, pattern, rows[at]) {
                let first = with_scope(state, rows[at]);
                creation_is_counted(first, pattern, values, range, minted);
                let (next, made) = pattern_created(first, pattern, values, range, minted);
                if made is Ok {
                    merges_are_counted(
                        setting,
                        without_scope(next),
                        pattern,
                        rows,
                        at + 1,
                        range,
                        minted,
                        before.push(next.scope),
                    );
                }
            }
        }
    }
}

proof fn item_assignments_are_counted(
    state: Changed,
    items: Seq<SetItem>,
    row: Scope,
    values: Seq<Option<QueryModel>>,
    at: int,
    range: SourceRange,
)
    ensures
        step_is_counted(state, items_assigned(state, items, row, values, at, range)),
    decreases items.len() - at,
{
    if 0 <= at < items.len() {
        let name = set_name(items[at]);
        if let Some(bound) = found_in(row, name) {
            assignment_is_counted(
                state.graph,
                state.summary,
                items[at],
                name,
                bound,
                values[at],
                range,
            );
            if let Ok((graph, summary)) = assigned(
                state.graph,
                state.summary,
                items[at],
                name,
                bound,
                values[at],
                range,
            ) {
                item_assignments_are_counted(
                    Changed { graph, summary, ..state },
                    items,
                    row,
                    values,
                    at + 1,
                    range,
                );
            }
        }
    }
}

proof fn row_assignments_are_counted(
    state: Changed,
    items: Seq<SetItem>,
    rows: Seq<Scope>,
    values: Seq<Seq<Option<QueryModel>>>,
    at: int,
    range: SourceRange,
)
    ensures
        step_is_counted(state, rows_assigned(state, items, rows, values, at, range)),
    decreases rows.len() - at,
{
    if 0 <= at < rows.len() {
        item_assignments_are_counted(state, items, rows[at], values[at], 0, range);
        if let Ok((next, _)) = items_assigned(state, items, rows[at], values[at], 0, range) {
            row_assignments_are_counted(next, items, rows, values, at + 1, range);
        }
    }
}

proof fn item_removals_are_counted(
    state: Changed,
    items: Seq<RemoveItem>,
    row: Scope,
    at: int,
    range: SourceRange,
)
    ensures
        step_is_counted(state, items_removed(state, items, row, at, range)),
    decreases items.len() - at,
{
    if 0 <= at < items.len() {
        let name = remove_name(items[at]);
        if let Some(bound) = found_in(row, name) {
            removal_is_counted(state.graph, state.summary, items[at], name, bound, range);
            if let Ok((graph, summary)) = removed(
                state.graph,
                state.summary,
                items[at],
                name,
                bound,
                range,
            ) {
                item_removals_are_counted(
                    Changed { graph, summary, ..state },
                    items,
                    row,
                    at + 1,
                    range,
                );
            }
        }
    }
}

proof fn row_removals_are_counted(
    state: Changed,
    items: Seq<RemoveItem>,
    rows: Seq<Scope>,
    at: int,
    range: SourceRange,
)
    ensures
        step_is_counted(state, rows_removed(state, items, rows, at, range)),
    decreases rows.len() - at,
{
    if 0 <= at < rows.len() {
        item_removals_are_counted(state, items, rows[at], 0, range);
        if let Ok((next, _)) = items_removed(state, items, rows[at], 0, range) {
            row_removals_are_counted(next, items, rows, at + 1, range);
        }
    }
}

proof fn value_deletions_are_counted(
    state: Changed,
    values: Seq<QueryModel>,
    at: int,
    detach: bool,
    range: SourceRange,
)
    ensures
        step_is_counted(state, values_deleted(state, values, at, detach, range)),
    decreases values.len() - at,
{
    if 0 <= at < values.len() {
        deletion_is_counted(state.graph, state.summary, values[at], detach, range);
        if let Ok((graph, summary)) = deleted(
            state.graph,
            state.summary,
            values[at],
            detach,
            range,
        ) {
            value_deletions_are_counted(
                Changed { graph, summary, ..state },
                values,
                at + 1,
                detach,
                range,
            );
        }
    }
}

proof fn row_deletions_are_counted(
    state: Changed,
    values: Seq<Seq<QueryModel>>,
    at: int,
    detach: bool,
    range: SourceRange,
)
    ensures
        step_is_counted(state, rows_deleted(state, values, at, detach, range)),
    decreases values.len() - at,
{
    if 0 <= at < values.len() {
        value_deletions_are_counted(state, values[at], 0, detach, range);
        if let Ok((next, _)) = values_deleted(state, values[at], 0, detach, range) {
            row_deletions_are_counted(next, values, at + 1, detach, range);
        }
    }
}

proof fn clause_is_counted(
    setting: Setting,
    state: Changed,
    rows: Seq<Scope>,
    clause: Clause,
    asked: int,
    fate: Fate,
)
    ensures
        step_is_counted(state, clause_run(setting, state, rows, clause, asked, fate)),
{
    reveal(clause_run);
    let world = setting.world(state.graph);
    match clause {
        Clause::Create { patterns, range } => {
            if let Ok(values) = rows_evaluated(world, patterns@, rows, 0, Seq::empty()) {
                row_creations_are_counted(
                    state,
                    patterns@,
                    rows,
                    values,
                    0,
                    range,
                    fate.minted,
                    Seq::empty(),
                );
            }
        },
        Clause::Merge { pattern, range } => {
            merges_are_counted(
                setting,
                state,
                pattern,
                rows,
                0,
                range,
                fate.minted,
                Seq::empty(),
            );
        },
        Clause::Assign { items, range } => {
            if let Ok(values) = assignments_evaluated(world, items@, rows, 0, Seq::empty()) {
                row_assignments_are_counted(state, items@, rows, values, 0, range);
            }
        },
        Clause::Remove { items, range } => {
            row_removals_are_counted(state, items@, rows, 0, range);
        },
        Clause::Delete { detach, targets, range } => {
            if let Ok(values) = targets_evaluated(world, targets@, rows, 0, Seq::empty()) {
                row_deletions_are_counted(state, values, 0, detach, range);
            }
        },
        _ => {},
    }
}

proof fn clauses_are_counted(
    setting: Setting,
    state: Changed,
    left: Rows,
    clauses: Seq<Clause>,
    at: int,
    asked: int,
    fate: Fate,
)
    ensures
        step_is_counted(state, clauses_run(setting, state, left, clauses, at, asked, fate)),
    decreases clauses.len() - at,
{
    if 0 <= at < clauses.len() {
        clause_is_counted(setting, state, left.0, clauses[at], asked + 1, fate);
        if let Ok((next, found)) = clause_run(
            setting,
            state,
            left.0,
            clauses[at],
            asked + 1,
            fate,
        ) {
            clauses_are_counted(
                setting,
                next,
                found,
                clauses,
                at + 1,
                asked + 1 + questions(clauses[at], left.0.len() as int),
                fate,
            );
        }
    }
}

proof fn part_is_counted(
    setting: Setting,
    state: Changed,
    part: QueryPart,
    asked: int,
    fate: Fate,
)
    ensures
        step_is_counted(state, part_run(setting, state, part, asked, fate)),
{
    reveal(part_run);
    clauses_are_counted(
        setting,
        state,
        (seq![Map::empty()], None),
        part.clauses@,
        0,
        asked,
        fate,
    );
}

proof fn parts_are_counted(
    setting: Setting,
    state: Changed,
    parts: Seq<QueryPart>,
    at: int,
    asked: int,
    before: Table,
    fate: Fate,
)
    ensures
        step_is_counted(state, parts_run(setting, state, parts, at, asked, before, fate)),
    decreases parts.len() - at,
{
    if 0 <= at < parts.len() {
        part_is_counted(setting, state, parts[at], asked + 1, fate);
        if let Ok((next, (table, count))) = part_run(setting, state, parts[at], asked + 1, fate) {
            parts_are_counted(
                setting,
                next,
                parts,
                at + 1,
                count,
                (
                    if at == 0 {
                        table.0
                    } else {
                        before.0
                    },
                    before.1 + table.1,
                ),
                fate,
            );
        }
    }
}

/// A query that reports no write left the graph as it was: the summary of what was written
/// tells of every change.
pub proof fn writes_are_counted(query: Query, graph: GraphModel, setting: Setting, fate: Fate)
    ensures
        query_run(query, graph, setting, fate).1 matches Ok(result) ==> {
            &&& counts_tell(
                graph,
                WriteSummary::nothing(),
                query_run(query, graph, setting, fate).0,
                result.writes,
            )
            &&& result.writes == WriteSummary::nothing() ==> query_run(
                query,
                graph,
                setting,
                fate,
            ).0 == graph
        },
{
    reveal(query_run);
    parts_are_counted(
        setting,
        Changed { graph, summary: WriteSummary::nothing(), used: 0 },
        query.parts@,
        0,
        0,
        (Seq::empty(), Seq::empty()),
        fate,
    );
}

proof fn reading_clause(clauses: Seq<Clause>, count: int, at: int)
    requires
        !writes_in(clauses, count),
        0 <= at < count,
    ensures
        match clauses[at] {
            Clause::Match { .. } => true,
            Clause::Unwind { .. } => true,
            Clause::With(_) => true,
            Clause::Call(_) => true,
            _ => false,
        },
    decreases count,
{
    if at < count - 1 {
        reading_clause(clauses, count - 1, at);
    }
}

proof fn reading_part(parts: Seq<QueryPart>, count: int, at: int)
    requires
        !parts_write(parts, count),
        0 <= at < count,
    ensures
        !writes_in(parts[at].clauses@, parts[at].clauses@.len() as int),
    decreases count,
{
    if at < count - 1 {
        reading_part(parts, count - 1, at);
    }
}

proof fn reading_clauses_change_nothing(
    setting: Setting,
    state: Changed,
    left: Rows,
    clauses: Seq<Clause>,
    at: int,
    asked: int,
    fate: Fate,
)
    requires
        !writes_in(clauses, clauses.len() as int),
    ensures
        step_changes_nothing(
            state,
            clauses_run(setting, state, left, clauses, at, asked, fate),
        ),
    decreases clauses.len() - at,
{
    if 0 <= at < clauses.len() {
        reading_clause(clauses, clauses.len() as int, at);
        assert(step_changes_nothing(
            state,
            clause_run(setting, state, left.0, clauses[at], asked + 1, fate),
        )) by {
            reveal(clause_run);
        }
        if let Ok((next, found)) = clause_run(
            setting,
            state,
            left.0,
            clauses[at],
            asked + 1,
            fate,
        ) {
            reading_clauses_change_nothing(
                setting,
                next,
                found,
                clauses,
                at + 1,
                asked + 1 + questions(clauses[at], left.0.len() as int),
                fate,
            );
        }
    }
}

proof fn reading_part_changes_nothing(
    setting: Setting,
    state: Changed,
    part: QueryPart,
    asked: int,
    fate: Fate,
)
    requires
        !writes_in(part.clauses@, part.clauses@.len() as int),
    ensures
        step_changes_nothing(state, part_run(setting, state, part, asked, fate)),
{
    reveal(part_run);
    reading_clauses_change_nothing(
        setting,
        state,
        (seq![Map::empty()], None),
        part.clauses@,
        0,
        asked,
        fate,
    );
}

proof fn reading_parts_change_nothing(
    setting: Setting,
    state: Changed,
    parts: Seq<QueryPart>,
    at: int,
    asked: int,
    before: Table,
    fate: Fate,
)
    requires
        !parts_write(parts, parts.len() as int),
    ensures
        step_changes_nothing(
            state,
            parts_run(setting, state, parts, at, asked, before, fate),
        ),
    decreases parts.len() - at,
{
    if 0 <= at < parts.len() {
        reading_part(parts, parts.len() as int, at);
        reading_part_changes_nothing(setting, state, parts[at], asked + 1, fate);
        if let Ok((next, (table, count))) = part_run(setting, state, parts[at], asked + 1, fate) {
            reading_parts_change_nothing(
                setting,
                next,
                parts,
                at + 1,
                count,
                (
                    if at == 0 {
                        table.0
                    } else {
                        before.0
                    },
                    before.1 + table.1,
                ),
                fate,
            );
        }
    }
}

/// A query without a writing clause leaves the graph as it was, whether or not it is
/// refused.
pub proof fn reading_changes_nothing(query: Query, graph: GraphModel, setting: Setting, fate: Fate)
    requires
        !parts_write(query.parts@, query.parts@.len() as int),
    ensures
        query_run(query, graph, setting, fate).0 == graph,
{
    reveal(query_run);
    reading_parts_change_nothing(
        setting,
        Changed { graph, summary: WriteSummary::nothing(), used: 0 },
        query.parts@,
        0,
        0,
        (Seq::empty(), Seq::empty()),
        fate,
    );
}

/// Whether no two rows compare as the same.
pub open spec fn all_differ(rows: Seq<Seq<QueryModel>>) -> bool {
    forall|i: int, j: int|
        0 <= i < j < rows.len() ==> of_lists(#[trigger] rows[i], #[trigger] rows[j], 0)
            != Relation::Same
}

proof fn unseen_differs(rows: Seq<Seq<QueryModel>>, count: int, row: Seq<QueryModel>)
    requires
        !seen(rows, count, row),
        count <= rows.len(),
    ensures
        forall|i: int| 0 <= i < count ==> of_lists(#[trigger] rows[i], row, 0) != Relation::Same,
    decreases count,
{
    if count > 0 {
        unseen_differs(rows, count - 1, row);
    }
}

proof fn unique_rows_go_on(
    rows: Seq<Seq<QueryModel>>,
    at: int,
    before: Seq<Seq<QueryModel>>,
)
    requires
        all_differ(before),
    ensures
        all_differ(unique_rows(rows, at, before)),
    decreases rows.len() - at,
{
    if 0 <= at < rows.len() {
        if seen(before, before.len() as int, rows[at]) {
            unique_rows_go_on(rows, at + 1, before);
        } else {
            unseen_differs(before, before.len() as int, rows[at]);
            unique_rows_go_on(rows, at + 1, before.push(rows[at]));
        }
    }
}

/// A union that removes duplicates returns no two rows that compare as the same.
pub proof fn union_rows_differ(query: Query, graph: GraphModel, setting: Setting, fate: Fate)
    requires
        removes_duplicates(query.union_all@, query.union_all@.len() as int),
    ensures
        query_run(query, graph, setting, fate).1 matches Ok(result) ==> all_differ(result.rows),
{
    reveal(query_run);
    if let Ok((_, (_, rows))) = parts_run(
        setting,
        Changed { graph, summary: WriteSummary::nothing(), used: 0 },
        query.parts@,
        0,
        0,
        (Seq::empty(), Seq::empty()),
        fate,
    ) {
        unique_rows_go_on(rows, 0, Seq::empty());
    }
}

/// A query that is told to stop at its first question did nothing.
pub proof fn stopped_at_once(query: Query, graph: GraphModel, setting: Setting, fate: Fate)
    requires
        query.parts@.len() > 0,
        fate.stop matches Some((at, _)) && at == 0,
    ensures
        query_run(query, graph, setting, fate) == (
            graph,
            Err::<ResultModel, _>(cancelled((fate.stop->0).1)),
        ),
{
    reveal(query_run);
}

} // verus!
