//! Which links a walk follows, and what it says of those that it does not.

use crate::diagnostic::DiagnosticCode;
use crate::diagnostic::DiagnosticModel;
use crate::federation::target_at;
use crate::federation::walk_from;
use crate::federation::warning_of;
use crate::federation::warnings_of;
use crate::federation::AnswerModel;
use crate::federation::Site;
use crate::federation::StatusModel;
use crate::federation::Target;
use crate::federation::UnreachableModel;
use crate::federation::Verdict;
use crate::federation::WalkModel;
use crate::graph::GraphModel;
use crate::laws::rows::pushed_contains;
use crate::locator::scheme_of;
use crate::settings::FederationSettings;
use vstd::prelude::*;

verus! {

/// Whether a source was opened under a locator.
pub open spec fn is_open(walk: WalkModel, locator: Seq<char>) -> bool {
    exists|i: int|
        0 <= i < walk.sources.len() && (#[trigger] walk.sources[i]).locator == Some(locator)
}

/// A link is opened exactly where the walk is not too deep, the locator was not opened before,
/// a local source declares it, no more databases than permitted were opened, and it is local or
/// there is a provider. It is remote exactly where its locator has a scheme.
pub proof fn a_link_is_opened_where_nothing_speaks_against_it(walk: WalkModel, locator: Seq<char>)
    ensures
        walk.verdict(locator) matches Verdict::Open { remote } ==> (remote <==> scheme_of(locator)
            is Some),
        walk.verdict(locator) is Open <==> {
            &&& walk.depth < walk.limits.max_link_depth && walk.depth < u32::MAX
            &&& !is_open(walk, locator)
            &&& !(walk.sources[walk.level[walk.place]].locator matches Some(own) && scheme_of(own)
                is Some)
            &&& walk.sources.len() - 1 < walk.limits.max_link_databases
            &&& scheme_of(locator) is Some ==> walk.provider
        },
{
}

/// A link that was opened before is a cycle, at any depth that is followed. Too deep a link is
/// told by the depth limit, one too many by the limit on databases, and a remote one without a
/// provider by its scheme.
pub proof fn a_refusal_says_why(walk: WalkModel, locator: Seq<char>)
    requires
        walk.depth < walk.limits.max_link_depth,
        walk.depth < u32::MAX,
    ensures
        is_open(walk, locator) ==> walk.verdict(locator) == Verdict::Refuse(UnreachableModel::Cycle),
        !is_open(walk, locator) && walk.sources.len() - 1 >= walk.limits.max_link_databases && !(
        walk.sources[walk.level[walk.place]].locator matches Some(own) && scheme_of(own) is Some)
            ==> walk.verdict(locator) == Verdict::Refuse(
            UnreachableModel::LimitExceeded { limit: "max_link_databases"@ },
        ),
        walk.verdict(locator) matches Verdict::Refuse(UnreachableModel::NoProvider { scheme })
            ==> scheme_of(locator) == Some(scheme) && !walk.provider,
{
}

/// What is opened stands behind the others under its own locator, with its own records, one
/// level deeper, and its links are followed after those of this level.
pub proof fn an_opened_link_is_a_source(walk: WalkModel, graph: GraphModel, path: Seq<char>)
    requires
        walk.stepped().1 is Ask,
        walk.depth < u32::MAX,
    ensures
        ({
            let link = walk.at_link()->0;
            let after = walk.answered(AnswerModel::Opened { graph, path });
            let made = after.sources.last();
            &&& after.sources == walk.sources.push(made)
            &&& made.locator == Some(link.source)
            &&& made.graph == graph
            &&& made.path == path
            &&& made.depth == walk.depth + 1
            &&& after.next == walk.next.push(walk.sources.len() as int)
            &&& after.link == walk.link + 1
            &&& after.statuses.last().unreachable is None
            &&& walk.stepped().1->Ask_0.locator == link.source
            &&& walk.stepped().1->Ask_0.source == walk.level[walk.place]
        }),
{
}

/// A link that could not be opened adds no source, and its status says why.
pub proof fn a_failed_link_says_why(walk: WalkModel, reason: UnreachableModel)
    requires
        walk.stepped().1 is Ask,
    ensures
        ({
            let after = walk.answered(AnswerModel::Failed(reason));
            &&& after.sources == walk.sources
            &&& after.next == walk.next
            &&& after.link == walk.link + 1
            &&& after.statuses.last().unreachable == Some(reason)
        }),
{
}

/// A walk goes through the sources of a level one by one and then to the next level, one deeper,
/// and it ends exactly where no level is left or it is too deep.
pub proof fn a_walk_goes_level_by_level(walk: WalkModel)
    requires
        walk.stands(),
        walk.at_link() is None,
        walk.depth < u32::MAX,
    ensures
        walk.place < walk.level.len() ==> ({
            let (after, turn) = walk.stepped();
            turn is Moved && after.place == walk.place + 1 && after.link == 0 && after.level
                == walk.level && after.depth == walk.depth && after.sources == walk.sources
        }),
        walk.place == walk.level.len() ==> (walk.stepped().1 is Done <==> walk.next.len() == 0
            || walk.depth >= walk.limits.max_link_depth),
        walk.place == walk.level.len() && !(walk.stepped().1 is Done) ==> ({
            let (after, turn) = walk.stepped();
            turn is Moved && after.level == walk.next && after.place == 0 && after.link == 0
                && after.next.len() == 0 && after.depth == walk.depth + 1 && after.sources
                == walk.sources
        }),
{
}

/// A walk starts with the root alone, at its first link.
pub proof fn a_walk_starts_at_the_root(
    root: GraphModel,
    path: Seq<char>,
    limits: FederationSettings,
    provider: bool,
)
    ensures
        ({
            let walk = walk_from(root, path, limits, provider);
            &&& walk.sources.len() == 1 && walk.sources[0].graph == root && walk.sources[0].locator
                is None && walk.sources[0].depth == 0
            &&& walk.statuses.len() == 0
            &&& root.links.len() > 0 ==> walk.at_link() == Some(root.links[0])
        }),
{
}

/// There is a warning for each link that does not contribute, and for no other. It names the
/// link and carries the code of what kept it from contributing.
pub proof fn what_is_missing_is_warned_of(
    statuses: Seq<StatusModel>,
    count: int,
    warning: DiagnosticModel,
)
    requires
        0 <= count <= statuses.len(),
    ensures
        warnings_of(statuses, count).contains(warning) <==> exists|k: int|
            0 <= k < count && is_warned_of(#[trigger] statuses[k], warning),
        warnings_of(statuses, count).contains(warning) ==> warning.code
            == DiagnosticCode::LinkCycle || warning.code == DiagnosticCode::LinkLimitExceeded
            || warning.code == DiagnosticCode::LinkUnavailable,
    decreases count,
{
    if count > 0 {
        what_is_missing_is_warned_of(statuses, count - 1, warning);
        let last = statuses[count - 1];
        if let Some(reason) = last.unreachable {
            pushed_contains(warnings_of(statuses, count - 1), warning_of(last, reason), warning);
            if warning == warning_of(last, reason) {
                assert(is_warned_of(statuses[count - 1], warning));
            }
        }
    }
}

/// Whether a warning is what is said of a link that does not contribute.
pub open spec fn is_warned_of(status: StatusModel, warning: DiagnosticModel) -> bool {
    &&& status.unreachable matches Some(reason) && warning == warning_of(status, reason)
    &&& warning.source == Some(status.locator)
    &&& status.unreachable == Some(UnreachableModel::Cycle) <==> warning.code
        == DiagnosticCode::LinkCycle
    &&& (status.unreachable is Some && status.unreachable->0 is LimitExceeded) <==> warning.code
        == DiagnosticCode::LinkLimitExceeded
}

/// A file is a document or a database by what it is. A directory means the database that its
/// settings name, or else the default one, and anything else means nothing.
pub proof fn a_place_means_what_it_holds(site: Site)
    ensures
        site.is_file ==> target_at(site) == Some(
            if site.is_document {
                Target::Document
            } else {
                Target::Database
            },
        ),
        !site.is_file && !site.is_directory ==> target_at(site) is None,
        !site.is_file && site.is_directory && site.has_settings && site.has_named ==> target_at(site)
            == Some(Target::NamedDatabase),
        !site.is_file && site.is_directory && !(site.has_settings && site.has_named) ==> target_at(
            site,
        ) == (if site.has_default {
            Some(Target::DefaultDatabase)
        } else {
            None
        }),
{
}

} // verus!
