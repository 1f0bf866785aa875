//! Resolving declared links into a reachable set of graphs.
//!
//! A link is identified by its canonical locator. Resolution walks the declarations level
//! by level, so that depth is the number of links followed and the nearest sources are
//! reached first. [`Walk`] decides, link by link, what becomes of each: it refuses a link
//! itself, or asks for it to be opened and takes the answer.
//!
//! # Nothing fails because a link does
//!
//! A source that cannot be reached keeps its declaration, and a query returns everything
//! reachable. The walk therefore produces statuses and warnings, not errors.
//!
//! # Linking unions; it does not merge
//!
//! Two sources may carry records with the same label, the same properties, and even the
//! same local identifier. They stay distinct, because a record is identified by the pair of
//! canonical locator and local identifier, and each source's graph is kept separate.

use crate::diagnostic::Diagnostic;
use crate::diagnostic::DiagnosticCode;
use crate::diagnostic::DiagnosticModel;
use crate::graph::Graph;
use crate::graph::GraphModel;
use crate::id::version_seven;
use crate::link::LinkModel;
use crate::locator::scheme_of;
use crate::locator::CanonicalSourceLocator;
use crate::nost::convert::are_spent;
use crate::nost::convert::leaves_open;
use crate::nost::convert::spent;
use crate::nost::convert::free_of;
use crate::nost::convert::graph_from;
use crate::nost::convert::to_graph;
use crate::nost::lexer::countable;
use crate::nost::parser::parse;
use crate::nost::parser::parsed;
use crate::settings::FederationSettings;
use crate::text::joined;
use crate::text::same;
use crate::text::view_of;
use crate::text::views;
use crate::text::views_push;
use crate::text::NonEmptyText;
use vstd::prelude::*;
use vstd::string::StringExecFns;

verus! {

/// Why a declared link is not contributing records.
#[derive(Debug, PartialEq, Eq)]
pub enum Unreachable {
    /// The locator names a scheme this build has no provider for.
    NoProvider {
        /// The scheme, such as `github`.
        scheme: String,
    },
    /// The locator resolves to nothing on disk.
    NotFound,
    /// The target exists but could not be read or decoded.
    Unreadable {
        /// What went wrong.
        reason: String,
    },
    /// The target was already opened in this traversal.
    Cycle,
    /// A configured traversal limit was reached before this link.
    LimitExceeded {
        /// Which limit.
        limit: &'static str,
    },
}

/// Why a declared link is not contributing records.
pub enum UnreachableModel {
    /// There is no provider for its scheme.
    NoProvider {
        /// The scheme.
        scheme: Seq<char>,
    },
    /// It resolves to nothing.
    NotFound,
    /// It could not be read or decoded.
    Unreadable {
        /// What went wrong.
        reason: Seq<char>,
    },
    /// It was already opened.
    Cycle,
    /// A limit was reached before it.
    LimitExceeded {
        /// Which limit.
        limit: Seq<char>,
    },
}

impl View for Unreachable {
    type V = UnreachableModel;

    open spec fn view(&self) -> UnreachableModel {
        match self {
            Unreachable::NoProvider { scheme } => UnreachableModel::NoProvider { scheme: scheme@ },
            Unreachable::NotFound => UnreachableModel::NotFound,
            Unreachable::Unreadable { reason } => UnreachableModel::Unreadable { reason: reason@ },
            Unreachable::Cycle => UnreachableModel::Cycle,
            Unreachable::LimitExceeded { limit } => UnreachableModel::LimitExceeded {
                limit: limit@,
            },
        }
    }
}

impl UnreachableModel {
    /// The diagnostic code this state reports.
    pub open spec fn code(self) -> DiagnosticCode {
        match self {
            UnreachableModel::Cycle => DiagnosticCode::LinkCycle,
            UnreachableModel::LimitExceeded { .. } => DiagnosticCode::LinkLimitExceeded,
            _ => DiagnosticCode::LinkUnavailable,
        }
    }

    /// The state in words.
    pub open spec fn text(self) -> Seq<char> {
        match self {
            UnreachableModel::NoProvider { scheme } => "no provider for the `"@ + scheme
                + "` scheme is built into this binary"@,
            UnreachableModel::NotFound => "the target does not exist"@,
            UnreachableModel::Unreadable { reason } => reason,
            UnreachableModel::Cycle => "already opened in this traversal, so the cycle is cut"@,
            UnreachableModel::LimitExceeded { limit } => "the "@ + limit + " limit was reached"@,
        }
    }
}

impl Unreachable {
    /// The diagnostic code this state reports.
    pub fn code(&self) -> (code: DiagnosticCode)
        ensures
            code == self@.code(),
    {
        match self {
            Unreachable::Cycle => DiagnosticCode::LinkCycle,
            Unreachable::LimitExceeded { .. } => DiagnosticCode::LinkLimitExceeded,
            _ => DiagnosticCode::LinkUnavailable,
        }
    }

    /// The state in words.
    pub fn to_string(&self) -> (text: String)
        ensures
            text@ == self@.text(),
    {
        match self {
            Unreachable::NoProvider { scheme } => {
                let mut text = joined("no provider for the `", scheme.as_str());
                text.append("` scheme is built into this binary");
                text
            }
            Unreachable::NotFound => "the target does not exist".to_owned(),
            Unreachable::Unreadable { reason } => reason.clone(),
            Unreachable::Cycle => {
                "already opened in this traversal, so the cycle is cut".to_owned()
            }
            Unreachable::LimitExceeded { limit } => {
                let mut text = joined("the ", limit);
                text.append(" limit was reached");
                text
            }
        }
    }
}

/// What became of one declared link.
#[derive(Debug, PartialEq, Eq)]
pub struct LinkStatus {
    /// The locator, which is the link's identity.
    pub locator: CanonicalSourceLocator,
    /// The alias, when the declaration carried one.
    pub alias: Option<String>,
    /// Which source declared it. `None` means the root.
    pub declared_by: Option<CanonicalSourceLocator>,
    /// How deep the declaring source sits. The root is zero.
    pub depth: u32,
    /// Why it is not contributing, when it is not.
    pub unreachable: Option<Unreachable>,
}

/// What became of one declared link.
pub struct StatusModel {
    /// The locator.
    pub locator: Seq<char>,
    /// The alias.
    pub alias: Option<Seq<char>>,
    /// Which source declared it.
    pub declared_by: Option<Seq<char>>,
    /// How deep the declaring source sits.
    pub depth: u32,
    /// Why it is not contributing, when it is not.
    pub unreachable: Option<UnreachableModel>,
}

impl View for LinkStatus {
    type V = StatusModel;

    open spec fn view(&self) -> StatusModel {
        StatusModel {
            locator: self.locator@,
            alias: view_of(self.alias),
            declared_by: view_of(self.declared_by),
            depth: self.depth,
            unreachable: view_of(self.unreachable),
        }
    }
}

impl LinkStatus {
    /// Reports whether this link contributed records.
    pub fn is_available(&self) -> (answer: bool)
        ensures
            answer == (self@.unreachable is None),
    {
        self.unreachable.is_none()
    }
}

/// One graph in the reachable set.
#[derive(Debug, PartialEq)]
pub struct FederatedSource {
    /// The canonical locator. `None` for the root.
    pub locator: Option<CanonicalSourceLocator>,
    /// The file the graph was read from.
    pub path: String,
    /// How many links were followed to reach it. The root is zero.
    pub depth: u32,
    /// The records it holds.
    pub graph: Graph,
}

/// One graph in the reachable set.
pub struct SourceModel {
    /// The canonical locator.
    pub locator: Option<Seq<char>>,
    /// The file the graph was read from.
    pub path: Seq<char>,
    /// How many links were followed to reach it.
    pub depth: u32,
    /// The records it holds.
    pub graph: GraphModel,
}

impl View for FederatedSource {
    type V = SourceModel;

    open spec fn view(&self) -> SourceModel {
        SourceModel {
            locator: view_of(self.locator),
            path: self.path@,
            depth: self.depth,
            graph: self.graph@,
        }
    }
}

/// The root and everything reachable from it.
#[derive(Debug, PartialEq)]
pub struct Federation {
    /// The root first, then each opened link in the order it was reached.
    pub sources: Vec<FederatedSource>,
    /// One entry per declared link, reachable or not.
    pub statuses: Vec<LinkStatus>,
}

/// The root and everything reachable from it.
pub struct FederationModel {
    /// The root first, then each opened link.
    pub sources: Seq<SourceModel>,
    /// One entry per declared link.
    pub statuses: Seq<StatusModel>,
}

impl View for Federation {
    type V = FederationModel;

    open spec fn view(&self) -> FederationModel {
        FederationModel { sources: views(self.sources@), statuses: views(self.statuses@) }
    }
}

/// What is said of a link that does not contribute.
pub open spec fn warning_of(status: StatusModel, unreachable: UnreachableModel) -> DiagnosticModel {
    DiagnosticModel {
        code: unreachable.code(),
        severity: unreachable.code().severity(),
        message: status.locator + ": "@ + unreachable.text(),
        source: Some(status.locator),
        range: None,
        details: Seq::empty(),
    }
}

/// A warning for each of the first `count` links that does not contribute, in the order of
/// their declaration.
pub open spec fn warnings_of(statuses: Seq<StatusModel>, count: int) -> Seq<DiagnosticModel>
    decreases count,
{
    if count <= 0 {
        Seq::empty()
    } else {
        match statuses[count - 1].unreachable {
            None => warnings_of(statuses, count - 1),
            Some(unreachable) => warnings_of(statuses, count - 1).push(
                warning_of(statuses[count - 1], unreachable),
            ),
        }
    }
}

impl Federation {
    /// How many linked databases were opened, excluding the root.
    pub fn linked_databases_opened(&self) -> (count: u64)
        ensures
            count == (if self@.sources.len() == 0 {
                0
            } else {
                self@.sources.len() - 1
            }),
    {
        let total: usize = self.sources.len();
        if total == 0 {
            0
        } else {
            (total - 1) as u64
        }
    }

    /// Reports whether some declared source was not fully traversed.
    pub fn is_partial(&self) -> (answer: bool)
        ensures
            answer == exists|i: int|
                0 <= i < self@.statuses.len() && (#[trigger] self@.statuses[i]).unreachable is Some,
    {
        let ghost models = self@.statuses;
        let mut at: usize = 0;
        while at < self.statuses.len()
            invariant
                at <= self.statuses@.len(),
                models == views(self.statuses@),
                forall|i: int| 0 <= i < at ==> (#[trigger] models[i]).unreachable is None,
            decreases self.statuses@.len() - at,
        {
            assert(models[at as int] == self.statuses@[at as int]@);
            if !self.statuses[at].is_available() {
                assert(self@.statuses[at as int].unreachable is Some);
                return true;
            }
            at = at + 1;
        }
        false
    }

    /// The root graph.
    pub fn root(&self) -> (graph: &Graph)
        requires
            self@.sources.len() > 0,
        ensures
            graph@ == self@.sources[0].graph,
    {
        assert(self@.sources[0] == self.sources@[0]@);
        &self.sources[0].graph
    }

    /// One warning per unreachable link, in declaration order.
    pub fn warnings(&self) -> (found: Vec<Diagnostic>)
        ensures
            views(found@) == warnings_of(self@.statuses, self@.statuses.len() as int),
    {
        let ghost models = self@.statuses;
        let mut found: Vec<Diagnostic> = Vec::new();
        assert(views(found@) =~= Seq::<DiagnosticModel>::empty());
        let mut at: usize = 0;
        while at < self.statuses.len()
            invariant
                at <= self.statuses@.len(),
                models == views(self.statuses@),
                views(found@) == warnings_of(models, at as int),
            decreases self.statuses@.len() - at,
        {
            assert(models[at as int] == self.statuses@[at as int]@);
            let status = &self.statuses[at];
            match &status.unreachable {
                None => {}
                Some(unreachable) => {
                    let mut message = joined(status.locator.as_str(), ": ");
                    message.append(unreachable.to_string().as_str());
                    proof {
                        reveal_strlit(": ");
                        reveal_strlit("a link is unreachable");
                    }
                    let code = unreachable.code();
                    let warning = Diagnostic {
                        code,
                        severity: code.default_severity(),
                        message: NonEmptyText::new_or(message.as_str(), "a link is unreachable"),
                        source: Some(status.locator.clone()),
                        range: None,
                        details: Vec::new(),
                    };
                    assert(warning@.details =~= Seq::<Seq<char>>::empty());
                    proof {
                        views_push(found@, warning);
                    }
                    found.push(warning);
                }
            }
            at = at + 1;
        }
        found
    }
}

// -- Documents ---------------------------------------------------------------------

/// What a document that is linked to comes to, for the identifiers that are issued for it:
/// its graph, or why it cannot be read.
pub open spec fn document_graph(text: Seq<char>, issued: Seq<Seq<u8>>) -> Result<
    GraphModel,
    UnreachableModel,
> {
    match parsed(text) {
        Err(error) => Err(UnreachableModel::Unreadable { reason: error.text() }),
        Ok(file) => match graph_from(file, free_of(file, issued)) {
            Err(error) => Err(UnreachableModel::Unreadable { reason: error.text() }),
            Ok((graph, _)) => Ok(graph),
        },
    }
}

/// What reading a document made.
pub open spec fn read_model(made: Result<Graph, Unreachable>) -> Result<
    GraphModel,
    UnreachableModel,
> {
    match made {
        Ok(graph) => Ok(graph@),
        Err(unreachable) => Err(unreachable@),
    }
}

/// Reads a document that is linked to.
///
/// A document that leaves an identifier to be minted is unreadable, too, where as many as can
/// be counted were issued and all are in use.
pub fn read_document(text: &str) -> (made: Result<Graph, Unreachable>)
    requires
        countable(text@),
    ensures
        exists|issued: Seq<Seq<u8>>|
            (forall|i: int| 0 <= i < issued.len() ==> version_seven(#[trigger] issued[i])) && (
            #[trigger] document_graph(text@, issued) == read_model(made) || (made is Err && (
            parsed(text@) matches Ok(file) && leaves_open(file) && spent(file, issued)))),
{
    match parse(text) {
        Err(error) => {
            let made = Unreachable::Unreadable { reason: error.to_string() };
            assert(document_graph(text@, Seq::empty()) == Err::<GraphModel, _>(made@));
            Err(made)
        }
        Ok(file) => match to_graph(&file) {
            Err(error) => {
                let made = Unreachable::Unreadable { reason: error.to_string() };
                proof {
                    let issued = choose|issued: Seq<Seq<u8>>|
                        (forall|i: int|
                            0 <= i < issued.len() ==> version_seven(#[trigger] issued[i])) && ((
                        graph_from(file@, #[trigger] free_of(file@, issued)) matches Err(wrong)
                            && wrong == error@) || are_spent(file@, error@, issued));
                    assert(document_graph(text@, issued) == Err::<GraphModel, _>(made@) || (
                    leaves_open(file@) && spent(file@, issued)));
                }
                Err(made)
            }
            Ok(graph) => {
                proof {
                    let issued = choose|issued: Seq<Seq<u8>>|
                        (forall|i: int|
                            0 <= i < issued.len() ==> version_seven(#[trigger] issued[i])) && (
                        graph_from(file@, #[trigger] free_of(file@, issued)) matches Ok(model)
                            && model == (graph@, free_of(file@, issued).len()));
                    assert(document_graph(text@, issued) == Ok::<_, UnreachableModel>(graph@));
                }
                Ok(graph)
            }
        },
    }
}

// -- Where a locator leads ---------------------------------------------------------

/// The state directory a configured project keeps.
pub const STATE_DIRECTORY: &'static str = ".nostdb";

/// The default database inside a project directory.
pub const DEFAULT_DATABASE: &'static str = "root.nostdb";

/// The settings file whose presence marks a configured project.
pub const SETTINGS_FILE: &'static str = "settings.json";

/// The extension of a document.
pub const DOCUMENT_EXTENSION: &'static str = "nost";

/// Whether the locators in a database are relative to the parent of the directory that
/// holds it: the state directory holds nothing a person arranges, so the base steps back
/// out of it to the project root.
pub fn steps_out(directory: Option<&str>) -> (answer: bool)
    ensures
        answer == (directory matches Some(name) && name@ == STATE_DIRECTORY@),
{
    match directory {
        Some(name) => same(name, STATE_DIRECTORY),
        None => false,
    }
}

/// What stands on disk where a local locator leads.
#[derive(Clone, Copy, Debug, PartialEq, Eq)]
pub struct Site {
    /// Whether it is a file.
    pub is_file: bool,
    /// Whether it has the extension of a document.
    pub is_document: bool,
    /// Whether it is a directory.
    pub is_directory: bool,
    /// Whether the state directory in it holds a settings file.
    pub has_settings: bool,
    /// Whether the state directory in it holds the database the settings name.
    pub has_named: bool,
    /// Whether the state directory in it holds the default database.
    pub has_default: bool,
}

/// What a local locator means.
#[derive(Clone, Copy, Debug, PartialEq, Eq, Structural)]
pub enum Target {
    /// The file itself, a database.
    Database,
    /// The file itself, a document.
    Document,
    /// The database that the settings of the project name.
    NamedDatabase,
    /// The default database of the project.
    DefaultDatabase,
}

/// What a local locator means: a file is itself, and a directory is the database in its
/// state directory, the one its settings name before the default one.
pub open spec fn target_at(site: Site) -> Option<Target> {
    if site.is_file {
        if site.is_document {
            Some(Target::Document)
        } else {
            Some(Target::Database)
        }
    } else if !site.is_directory {
        None
    } else if site.has_settings && site.has_named {
        Some(Target::NamedDatabase)
    } else if site.has_default {
        Some(Target::DefaultDatabase)
    } else {
        None
    }
}

/// Decides what a local locator means, if it means anything.
pub fn find_target(site: Site) -> (target: Option<Target>)
    ensures
        target == target_at(site),
{
    if site.is_file {
        if site.is_document {
            Some(Target::Document)
        } else {
            Some(Target::Database)
        }
    } else if !site.is_directory {
        None
    } else if site.has_settings && site.has_named {
        Some(Target::NamedDatabase)
    } else if site.has_default {
        Some(Target::DefaultDatabase)
    } else {
        None
    }
}

// -- The walk ----------------------------------------------------------------------

/// A link that is to be opened.
#[derive(Debug, PartialEq, Eq)]
pub struct Question {
    /// What to open.
    pub locator: CanonicalSourceLocator,
    /// The source that declares it, which a relative locator is relative to.
    pub source: usize,
    /// Whether a provider is to open it.
    pub remote: bool,
}

/// A link that is to be opened.
pub struct QuestionModel {
    /// What to open.
    pub locator: Seq<char>,
    /// The source that declares it.
    pub source: int,
    /// Whether a provider is to open it.
    pub remote: bool,
}

impl View for Question {
    type V = QuestionModel;

    open spec fn view(&self) -> QuestionModel {
        QuestionModel {
            locator: self.locator@,
            source: self.source as int,
            remote: self.remote,
        }
    }
}

/// What a walk does next.
#[derive(Debug, PartialEq, Eq)]
pub enum Turn {
    /// It wants a link opened, and an answer before it goes on.
    Ask(Question),
    /// It went on by itself.
    Moved,
    /// It is at its end.
    Done,
}

/// What a walk does next.
pub enum TurnModel {
    /// It wants a link opened.
    Ask(QuestionModel),
    /// It went on by itself.
    Moved,
    /// It is at its end.
    Done,
}

impl View for Turn {
    type V = TurnModel;

    open spec fn view(&self) -> TurnModel {
        match self {
            Turn::Ask(question) => TurnModel::Ask(question@),
            Turn::Moved => TurnModel::Moved,
            Turn::Done => TurnModel::Done,
        }
    }
}

/// What became of opening a link.
#[derive(Debug)]
pub enum Answer {
    /// It was opened.
    Opened {
        /// The records it holds.
        graph: Graph,
        /// The file they were read from.
        path: String,
    },
    /// It could not be opened.
    Failed(Unreachable),
}

/// What became of opening a link.
pub enum AnswerModel {
    /// It was opened.
    Opened {
        /// The records it holds.
        graph: GraphModel,
        /// The file they were read from.
        path: Seq<char>,
    },
    /// It could not be opened.
    Failed(UnreachableModel),
}

impl View for Answer {
    type V = AnswerModel;

    open spec fn view(&self) -> AnswerModel {
        match self {
            Answer::Opened { graph, path } => AnswerModel::Opened { graph: graph@, path: path@ },
            Answer::Failed(unreachable) => AnswerModel::Failed(unreachable@),
        }
    }
}

/// A walk through declared links.
pub struct WalkModel {
    /// The root and what was opened.
    pub sources: Seq<SourceModel>,
    /// What became of each link so far.
    pub statuses: Seq<StatusModel>,
    /// The sources whose links are followed now.
    pub level: Seq<int>,
    /// Which of them is at work.
    pub place: int,
    /// Which of its links is next.
    pub link: int,
    /// The sources whose links are followed after them.
    pub next: Seq<int>,
    /// How many links were followed to this level.
    pub depth: u32,
    /// How far links are followed.
    pub limits: FederationSettings,
    /// Whether there is a provider for remote links.
    pub provider: bool,
}

/// A number, or the largest there is room for.
pub open spec fn at_most_u32(number: u64) -> u32 {
    if number > u32::MAX {
        u32::MAX
    } else {
        number as u32
    }
}

/// Whether a source was opened under a locator.
pub open spec fn was_opened(sources: Seq<SourceModel>, locator: Seq<char>) -> bool {
    exists|i: int| 0 <= i < sources.len() && (#[trigger] sources[i]).locator == Some(locator)
}

/// What is decided of a link before it is opened.
pub enum Verdict {
    /// It is not opened.
    Refuse(UnreachableModel),
    /// It is opened, by a provider where it is remote.
    Open {
        /// Whether a provider opens it.
        remote: bool,
    },
}

impl WalkModel {
    /// Whether the links of this level are cut off by the depth limit.
    pub open spec fn is_cut(self) -> bool {
        self.depth >= at_most_u32(self.limits.max_link_depth)
    }

    /// Whether the source at work was opened by a provider.
    pub open spec fn is_remote(self) -> bool {
        self.sources[self.level[self.place]].locator matches Some(locator) && scheme_of(locator) is Some
    }

    /// What is decided of a link: below the depth limit, one that was opened before is a
    /// cycle, what a remote source declares is not followed, no more than the permitted
    /// number is opened, and a remote one needs a provider.
    pub open spec fn verdict(self, locator: Seq<char>) -> Verdict {
        if self.is_cut() {
            Verdict::Refuse(UnreachableModel::LimitExceeded { limit: "max_link_depth"@ })
        } else if was_opened(self.sources, locator) {
            Verdict::Refuse(UnreachableModel::Cycle)
        } else if self.is_remote() {
            Verdict::Refuse(UnreachableModel::LimitExceeded { limit: "remote link depth"@ })
        } else if self.sources.len() - 1 >= self.limits.max_link_databases {
            Verdict::Refuse(UnreachableModel::LimitExceeded { limit: "max_link_databases"@ })
        } else {
            match scheme_of(locator) {
                None => Verdict::Open { remote: false },
                Some(scheme) => if self.provider {
                    Verdict::Open { remote: true }
                } else {
                    Verdict::Refuse(UnreachableModel::NoProvider { scheme })
                },
            }
        }
    }

    /// The link that is next, where there is one.
    pub open spec fn at_link(self) -> Option<LinkModel> {
        if 0 <= self.place < self.level.len() {
            let links = self.sources[self.level[self.place]].graph.links;
            if 0 <= self.link < links.len() {
                Some(links[self.link])
            } else {
                None
            }
        } else {
            None
        }
    }

    /// What a link has become.
    pub open spec fn status(self, link: LinkModel, unreachable: Option<UnreachableModel>) -> StatusModel {
        StatusModel {
            locator: link.source,
            alias: link.alias,
            declared_by: self.sources[self.level[self.place]].locator,
            depth: self.depth,
            unreachable,
        }
    }

    /// The walk behind its link.
    pub open spec fn past(self, status: StatusModel) -> WalkModel {
        WalkModel { statuses: self.statuses.push(status), link: self.link + 1, ..self }
    }

    /// What a walk does next, and where it is then.
    pub open spec fn stepped(self) -> (WalkModel, TurnModel) {
        match self.at_link() {
            Some(link) => match self.verdict(link.source) {
                Verdict::Refuse(reason) => (
                    self.past(self.status(link, Some(reason))),
                    TurnModel::Moved,
                ),
                Verdict::Open { remote } => (
                    self,
                    TurnModel::Ask(
                        QuestionModel {
                            locator: link.source,
                            source: self.level[self.place],
                            remote,
                        },
                    ),
                ),
            },
            None => if self.place < self.level.len() {
                (WalkModel { place: self.place + 1, link: 0, ..self }, TurnModel::Moved)
            } else if self.is_cut() || self.next.len() == 0 {
                (self, TurnModel::Done)
            } else {
                (
                    WalkModel {
                        level: self.next,
                        place: 0,
                        link: 0,
                        next: Seq::empty(),
                        depth: (self.depth + 1) as u32,
                        ..self
                    },
                    TurnModel::Moved,
                )
            },
        }
    }

    /// A walk with the answer to what it asked. What was opened is at work one level later.
    pub open spec fn answered(self, answer: AnswerModel) -> WalkModel {
        match self.stepped().1 {
            TurnModel::Ask(_) => {
                let link = self.at_link()->0;
                match answer {
                    AnswerModel::Failed(reason) => self.past(self.status(link, Some(reason))),
                    AnswerModel::Opened { graph, path } => WalkModel {
                        sources: self.sources.push(
                            SourceModel {
                                locator: Some(link.source),
                                path,
                                depth: (self.depth + 1) as u32,
                                graph,
                            },
                        ),
                        next: self.next.push(self.sources.len() as int),
                        ..self.past(self.status(link, None))
                    },
                }
            },
            _ => self,
        }
    }

    /// Whether a walk stands where one can: every source it is to walk through is there.
    pub open spec fn stands(self) -> bool {
        &&& self.sources.len() > 0
        &&& 0 <= self.place <= self.level.len()
        &&& 0 <= self.link
        &&& self.place < self.level.len() ==> self.link
            <= self.sources[self.level[self.place]].graph.links.len()
        &&& self.place == self.level.len() ==> self.link == 0
        &&& forall|i: int| 0 <= i < self.level.len() ==> 0 <= #[trigger] self.level[i] < self.sources.len()
        &&& forall|i: int| 0 <= i < self.next.len() ==> 0 <= #[trigger] self.next[i] < self.sources.len()
    }

    /// Whether a walk kept what it promises: the root is first, no locator was opened
    /// twice, and no more was opened, and nothing deeper, than the limits permit.
    pub open spec fn keeps(self) -> bool {
        &&& self.stands()
        &&& self.sources[0].locator is None
        &&& forall|i: int|
            1 <= i < self.sources.len() ==> (#[trigger] self.sources[i]).locator is Some
        &&& forall|i: int, j: int|
            1 <= i < j < self.sources.len() ==> (#[trigger] self.sources[i]).locator != (
            #[trigger] self.sources[j]).locator
        &&& self.sources.len() - 1 <= self.limits.max_link_databases
        &&& self.depth <= at_most_u32(self.limits.max_link_depth)
        &&& forall|i: int|
            0 <= i < self.sources.len() ==> (#[trigger] self.sources[i]).depth <= at_most_u32(
                self.limits.max_link_depth,
            )
    }
}

/// A walk at its start.
pub open spec fn walk_from(
    root: GraphModel,
    path: Seq<char>,
    limits: FederationSettings,
    provider: bool,
) -> WalkModel {
    WalkModel {
        sources: seq![SourceModel { locator: None, path, depth: 0, graph: root }],
        statuses: Seq::empty(),
        level: seq![0],
        place: 0,
        link: 0,
        next: Seq::empty(),
        depth: 0,
        limits,
        provider,
    }
}

/// A walk through declared links, level by level.
#[derive(Debug)]
pub struct Walk {
    sources: Vec<FederatedSource>,
    statuses: Vec<LinkStatus>,
    level: Vec<usize>,
    place: usize,
    link: usize,
    next: Vec<usize>,
    depth: u32,
    limits: FederationSettings,
    provider: bool,
}

/// The numbers of sources.
pub open spec fn numbers(places: Seq<usize>) -> Seq<int> {
    Seq::new(places.len(), |i: int| places[i] as int)
}

impl View for Walk {
    type V = WalkModel;

    closed spec fn view(&self) -> WalkModel {
        WalkModel {
            sources: views(self.sources@),
            statuses: views(self.statuses@),
            level: numbers(self.level@),
            place: self.place as int,
            link: self.link as int,
            next: numbers(self.next@),
            depth: self.depth,
            limits: self.limits,
            provider: self.provider,
        }
    }
}

impl Walk {
    /// A walk from a root graph, read from a file. `provider` says whether remote links can
    /// be opened.
    pub fn new(root: Graph, path: String, limits: FederationSettings, provider: bool) -> (walk: Self)
        ensures
            walk@ == walk_from(root@, path@, limits, provider),
            walk@.stands(),
    {
        let first = FederatedSource { locator: None, path, depth: 0, graph: root };
        let mut sources: Vec<FederatedSource> = Vec::new();
        sources.push(first);
        let mut level: Vec<usize> = Vec::new();
        level.push(0);
        let statuses: Vec<LinkStatus> = Vec::new();
        let next: Vec<usize> = Vec::new();
        proof {
            assert(views(sources@) =~= seq![first@]);
            assert(views(statuses@) =~= Seq::<StatusModel>::empty());
            assert(numbers(level@) =~= seq![0]);
            assert(numbers(next@) =~= Seq::<int>::empty());
        }
        Walk {
            sources,
            statuses,
            level,
            place: 0,
            link: 0,
            next,
            depth: 0,
            limits,
            provider,
        }
    }

    fn is_cut(&self) -> (answer: bool)
        ensures
            answer == self@.is_cut(),
    {
        let limit: u32 = if self.limits.max_link_depth > u32::MAX as u64 {
            u32::MAX
        } else {
            self.limits.max_link_depth as u32
        };
        self.depth >= limit
    }

    fn is_opened(&self, locator: &CanonicalSourceLocator) -> (answer: bool)
        ensures
            answer == was_opened(self@.sources, locator@),
    {
        let ghost models = self@.sources;
        let mut at: usize = 0;
        while at < self.sources.len()
            invariant
                at <= self.sources@.len(),
                models == views(self.sources@),
                forall|i: int| 0 <= i < at ==> (#[trigger] models[i]).locator != Some(locator@),
            decreases self.sources@.len() - at,
        {
            assert(models[at as int] == self.sources@[at as int]@);
            match &self.sources[at].locator {
                Some(held) => {
                    if held.same(locator) {
                        assert(self@.sources[at as int].locator == Some(locator@));
                        return true;
                    }
                }
                None => {}
            }
            at = at + 1;
        }
        false
    }

    fn is_remote(&self) -> (answer: bool)
        requires
            self@.stands(),
            self@.at_link() is Some,
        ensures
            answer == self@.is_remote(),
    {
        let source = &self.sources[self.level[self.place]];
        assert(self@.level[self.place as int] == self.level@[self.place as int]);
        assert(self@.sources[self.level@[self.place as int] as int] == source@);
        match &source.locator {
            Some(locator) => locator.scheme().is_some(),
            None => false,
        }
    }

    fn judge(&self, locator: &CanonicalSourceLocator) -> (made: Result<bool, Unreachable>)
        requires
            self@.stands(),
            self@.at_link() is Some,
        ensures
            self@.verdict(locator@) == (match made {
                Ok(remote) => Verdict::Open { remote },
                Err(reason) => Verdict::Refuse(reason@),
            }),
    {
        assert(self@.sources.len() == self.sources@.len());
        if self.is_cut() {
            return Err(Unreachable::LimitExceeded { limit: "max_link_depth" });
        }
        if self.is_opened(locator) {
            return Err(Unreachable::Cycle);
        }
        if self.is_remote() {
            return Err(Unreachable::LimitExceeded { limit: "remote link depth" });
        }
        if (self.sources.len() - 1) as u64 >= self.limits.max_link_databases {
            return Err(Unreachable::LimitExceeded { limit: "max_link_databases" });
        }
        match locator.scheme() {
            None => Ok(false),
            Some(scheme) => {
                if self.provider {
                    Ok(true)
                } else {
                    Err(Unreachable::NoProvider { scheme: scheme.to_owned() })
                }
            }
        }
    }

    fn status_of(&self, unreachable: Option<Unreachable>) -> (status: LinkStatus)
        requires
            self@.stands(),
            self@.at_link() is Some,
        ensures
            status@ == self@.status(self@.at_link()->0, view_of(unreachable)),
    {
        let source = &self.sources[self.level[self.place]];
        assert(self@.sources[self.level@[self.place as int] as int] == source@);
        let link = &source.graph.links[self.link];
        assert(source@.graph.links[self.link as int] == link@);
        LinkStatus {
            locator: link.source.clone(),
            alias: match &link.alias {
                Some(alias) => Some(alias.as_str().to_owned()),
                None => None,
            },
            declared_by: match &source.locator {
                Some(locator) => Some(locator.clone()),
                None => None,
            },
            depth: self.depth,
            unreachable,
        }
    }

    fn has_link(&self) -> (answer: bool)
        requires
            self@.stands(),
        ensures
            answer == (self@.at_link() is Some),
    {
        if self.place < self.level.len() {
            assert(self@.level[self.place as int] == self.level@[self.place as int]);
            let source = &self.sources[self.level[self.place]];
            assert(self@.sources[self.level@[self.place as int] as int] == source@);
            assert(source@.graph.links.len() == source.graph.links@.len());
            self.link < source.graph.links.len()
        } else {
            false
        }
    }

    /// What the walk does next. Where it asks, it goes on once it has its
    /// [`Walk::answer`].
    pub fn step(&mut self) -> (turn: Turn)
        requires
            old(self)@.stands(),
        ensures
            final(self)@.stands(),
            (final(self)@, turn@) == old(self)@.stepped(),
    {
        let ghost before = self@;
        if self.has_link() {
            let place = self.level[self.place];
            let locator = self.sources[place].graph.links[self.link].source.clone();
            proof {
                assert(before.level[self.place as int] == place);
                assert(before.sources[place as int] == self.sources@[place as int]@);
                assert(self.sources@[place as int]@.graph.links[self.link as int]
                    == self.sources@[place as int].graph.links@[self.link as int]@);
                assert(locator@ == (before.at_link()->0).source);
            }
            match self.judge(&locator) {
                Err(reason) => {
                    let status = self.status_of(Some(reason));
                    self.pass(status);
                    Turn::Moved
                }
                Ok(remote) => Turn::Ask(Question { locator, source: place, remote }),
            }
        } else if self.place < self.level.len() {
            self.advance();
            Turn::Moved
        } else if self.is_cut() || self.next.len() == 0 {
            assert(self@.next.len() == self.next@.len());
            Turn::Done
        } else {
            self.descend();
            Turn::Moved
        }
    }

    fn pass(&mut self, status: LinkStatus)
        requires
            old(self)@.stands(),
            old(self)@.at_link() is Some,
        ensures
            final(self)@.stands(),
            final(self)@ == old(self)@.past(status@),
    {
        proof {
            views_push(self.statuses@, status);
            assert(self@.level[self.place as int] == self.level@[self.place as int]);
            let source = self.sources@[self.level@[self.place as int] as int];
            assert(self@.sources[self.level@[self.place as int] as int] == source@);
            assert(source@.graph.links.len() == source.graph.links@.len());
        }
        let total: usize = self.sources[self.level[self.place]].graph.links.len();
        assert(self.link < total);
        let ghost before = self@;
        self.statuses.push(status);
        self.link = self.link + 1;
        assert(self@.sources[self@.level[self@.place]] == before.sources[before.level[before.place]]);
        assert(self@ == before.past(status@));
    }

    fn advance(&mut self)
        requires
            old(self)@.stands(),
            old(self)@.place < old(self)@.level.len(),
        ensures
            final(self)@.stands(),
            final(self)@ == (WalkModel {
                place: old(self)@.place + 1,
                link: 0,
                ..old(self)@
            }),
    {
        let total: usize = self.level.len();
        assert(self@.level.len() == total);
        self.link = 0;
        self.place = self.place + 1;
    }

    fn descend(&mut self)
        requires
            old(self)@.stands(),
            old(self)@.place == old(self)@.level.len(),
            !old(self)@.is_cut(),
        ensures
            final(self)@.stands(),
            final(self)@ == (WalkModel {
                level: old(self)@.next,
                place: 0,
                link: 0,
                next: Seq::empty(),
                depth: (old(self)@.depth + 1) as u32,
                ..old(self)@
            }),
    {
        let mut level: Vec<usize> = Vec::new();
        self.place = 0;
        std::mem::swap(&mut self.level, &mut level);
        std::mem::swap(&mut self.level, &mut self.next);
        assert(numbers(self.next@) =~= Seq::<int>::empty());
        self.depth = self.depth + 1;
    }

    /// Takes the answer to what the walk asked. Where it did not ask, nothing changes.
    pub fn answer(&mut self, answer: Answer)
        requires
            old(self)@.stands(),
        ensures
            final(self)@.stands(),
            final(self)@ == old(self)@.answered(answer@),
    {
        let ghost before = self@;
        if !self.has_link() {
            return;
        }
        let place = self.level[self.place];
        let locator = self.sources[place].graph.links[self.link].source.clone();
        proof {
            assert(before.level[self.place as int] == place);
            assert(before.sources[place as int] == self.sources@[place as int]@);
            assert(self.sources@[place as int]@.graph.links[self.link as int]
                == self.sources@[place as int].graph.links@[self.link as int]@);
            assert(locator@ == (before.at_link()->0).source);
        }
        if self.judge(&locator).is_err() {
            return;
        }
        match answer {
            Answer::Failed(reason) => {
                let status = self.status_of(Some(reason));
                self.pass(status);
            }
            Answer::Opened { graph, path } => {
                let status = self.status_of(None);
                self.pass(status);
                self.open(locator, path, graph);
            }
        }
    }

    fn open(&mut self, locator: CanonicalSourceLocator, path: String, graph: Graph)
        requires
            old(self)@.stands(),
            !old(self)@.is_cut(),
        ensures
            final(self)@.stands(),
            final(self)@ == (WalkModel {
                sources: old(self)@.sources.push(
                    SourceModel {
                        locator: Some(locator@),
                        path: path@,
                        depth: (old(self)@.depth + 1) as u32,
                        graph: graph@,
                    },
                ),
                next: old(self)@.next.push(old(self)@.sources.len() as int),
                ..old(self)@
            }),
    {
        let index: usize = self.sources.len();
        let source = FederatedSource {
            locator: Some(locator),
            path,
            depth: self.depth + 1,
            graph,
        };
        proof {
            views_push(self.sources@, source);
            assert(numbers(self.next@.push(index)) =~= numbers(self.next@).push(index as int));
        }
        self.sources.push(source);
        self.next.push(index);
    }

    /// What the walk has reached.
    pub fn finish(self) -> (federation: Federation)
        ensures
            federation@ == (FederationModel {
                sources: self@.sources,
                statuses: self@.statuses,
            }),
    {
        Federation { sources: self.sources, statuses: self.statuses }
    }
}

// -- Laws --------------------------------------------------------------------------

/// A walk keeps its promises at its start.
pub proof fn walk_starts_kept(
    root: GraphModel,
    path: Seq<char>,
    limits: FederationSettings,
    provider: bool,
)
    ensures
        walk_from(root, path, limits, provider).keeps(),
{
}

/// A step keeps the promises: the root stays first, no locator is opened twice, and the
/// limits hold.
pub proof fn step_keeps(walk: WalkModel)
    requires
        walk.keeps(),
    ensures
        walk.stepped().0.keeps(),
{
    let after = walk.stepped().0;
    if walk.at_link() is Some {
        assert(after.sources == walk.sources);
    }
}

/// An answer keeps the promises: the root stays first, no locator is opened twice, and the
/// limits hold.
pub proof fn answer_keeps(walk: WalkModel, answer: AnswerModel)
    requires
        walk.keeps(),
    ensures
        walk.answered(answer).keeps(),
{
    let after = walk.answered(answer);
    if let TurnModel::Ask(question) = walk.stepped().1 {
        let link = walk.at_link()->0;
        if let AnswerModel::Opened { graph, path } = answer {
            let total = walk.sources.len() as int;
            assert(after.sources.len() == total + 1);
            assert forall|i: int, j: int| 1 <= i < j < after.sources.len() implies (
            #[trigger] after.sources[i]).locator != (#[trigger] after.sources[j]).locator by {
                if j == total {
                    assert(after.sources[i] == walk.sources[i]);
                    assert(walk.sources[i].locator != Some(link.source));
                } else {
                    assert(after.sources[i] == walk.sources[i]);
                    assert(after.sources[j] == walk.sources[j]);
                }
            }
            assert forall|i: int| 1 <= i < after.sources.len() implies (
            #[trigger] after.sources[i]).locator is Some by {
                if i < total {
                    assert(after.sources[i] == walk.sources[i]);
                }
            }
            assert forall|i: int| 0 <= i < after.sources.len() implies (
            #[trigger] after.sources[i]).depth <= at_most_u32(walk.limits.max_link_depth) by {
                if i < total {
                    assert(after.sources[i] == walk.sources[i]);
                }
            }
            assert forall|i: int| 0 <= i < after.level.len() implies 0 <= #[trigger] after.level[i]
                < after.sources.len() by {
                assert(walk.level[i] < walk.sources.len());
            }
            assert forall|i: int| 0 <= i < after.next.len() implies 0 <= #[trigger] after.next[i]
                < after.sources.len() by {
                if i < walk.next.len() {
                    assert(walk.next[i] < walk.sources.len());
                }
            }
            assert(after.sources[0] == walk.sources[0]);
            assert(after.sources[walk.level[walk.place]] == walk.sources[walk.level[walk.place]]);
        }
    }
}

/// How many links the source at work still has.
pub open spec fn links_left(walk: WalkModel) -> int {
    if 0 <= walk.place < walk.level.len() {
        walk.sources[walk.level[walk.place]].graph.links.len() - walk.link
    } else {
        0
    }
}

/// Whether a walk is nearer to its end: deeper, or at a later source of its level, or
/// behind a further link.
pub open spec fn nearer(before: WalkModel, after: WalkModel) -> bool {
    ||| after.depth > before.depth
    ||| after.depth == before.depth && after.level.len() - after.place < before.level.len()
        - before.place
    ||| after.depth == before.depth && after.level.len() - after.place == before.level.len()
        - before.place && 0 <= links_left(after) < links_left(before)
}

/// A walk ends: each step that is not its last brings it nearer to its end, and where it
/// asks, each answer does. Its depth has a limit, and a level has an end.
pub proof fn walk_ends(walk: WalkModel, answer: AnswerModel)
    requires
        walk.keeps(),
    ensures
        match walk.stepped().1 {
            TurnModel::Moved => nearer(walk, walk.stepped().0),
            TurnModel::Ask(_) => nearer(walk, walk.answered(answer)),
            TurnModel::Done => walk.stepped().0 == walk,
        },
        walk.stepped().0.depth <= at_most_u32(walk.limits.max_link_depth),
{
    step_keeps(walk);
    if let TurnModel::Ask(_) = walk.stepped().1 {
        let after = walk.answered(answer);
        assert(after.sources[walk.level[walk.place]] == walk.sources[walk.level[walk.place]]);
    }
}

/// What a walk found stays: neither a step nor an answer takes a source or a status out or
/// changes one.
pub proof fn walk_only_grows(walk: WalkModel, answer: AnswerModel)
    ensures
        walk.sources.is_prefix_of(walk.stepped().0.sources),
        walk.statuses.is_prefix_of(walk.stepped().0.statuses),
        walk.sources.is_prefix_of(walk.answered(answer).sources),
        walk.statuses.is_prefix_of(walk.answered(answer).statuses),
{
    let stepped = walk.stepped().0;
    let answered = walk.answered(answer);
    assert(walk.sources =~= stepped.sources.subrange(0, walk.sources.len() as int));
    assert(walk.statuses =~= stepped.statuses.subrange(0, walk.statuses.len() as int));
    assert(walk.sources =~= answered.sources.subrange(0, walk.sources.len() as int));
    assert(walk.statuses =~= answered.statuses.subrange(0, walk.statuses.len() as int));
}

/// A declared link is never lost: where a step refuses it, and where an answer comes for it,
/// it has a status, which names it and who declared it.
pub proof fn declared_link_has_status(walk: WalkModel, answer: AnswerModel)
    requires
        walk.at_link() is Some,
    ensures
        ({
            let link = walk.at_link()->0;
            let after = match walk.stepped().1 {
                TurnModel::Ask(_) => walk.answered(answer),
                _ => walk.stepped().0,
            };
            &&& after.statuses.len() == walk.statuses.len() + 1
            &&& after.statuses.last().locator == link.source
            &&& after.statuses.last().alias == link.alias
            &&& after.statuses.last().depth == walk.depth
            &&& after.statuses.last().declared_by == walk.sources[walk.level[walk.place]].locator
            &&& after.sources.len() > walk.sources.len() <==> after.statuses.last().unreachable is None
        }),
{
}

/// How many of the statuses are of links that contribute.
pub open spec fn available(statuses: Seq<StatusModel>) -> nat
    decreases statuses.len(),
{
    if statuses.len() == 0 {
        0
    } else {
        available(statuses.drop_last()) + if statuses.last().unreachable is None {
            1nat
        } else {
            0
        }
    }
}

/// How many links the first `count` sources declare.
pub open spec fn links_declared(sources: Seq<SourceModel>, count: int) -> nat
    decreases count,
{
    if count <= 0 {
        0
    } else {
        links_declared(sources, count - 1) + sources[count - 1].graph.links.len()
    }
}

impl WalkModel {
    /// Whether a walk lost count of nothing: its levels are the sources in the order they
    /// were opened, there is one status for each link it is past, and one source for each
    /// status that is available.
    pub open spec fn counted(self) -> bool {
        let first = self.sources.len() - self.next.len() - self.level.len();
        &&& 0 <= first
        &&& forall|i: int| 0 <= i < self.level.len() ==> #[trigger] self.level[i] == first + i
        &&& forall|i: int|
            0 <= i < self.next.len() ==> #[trigger] self.next[i] == first + self.level.len() + i
        &&& self.is_cut() ==> self.next.len() == 0
        &&& self.statuses.len() == links_declared(self.sources, first + self.place) + self.link
        &&& available(self.statuses) == self.sources.len() - 1
    }
}

proof fn links_of_more(sources: Seq<SourceModel>, source: SourceModel, count: int)
    requires
        count <= sources.len(),
    ensures
        links_declared(sources.push(source), count) == links_declared(sources, count),
    decreases count,
{
    if count > 0 {
        links_of_more(sources, source, count - 1);
    }
}

/// A walk that begins lost count of nothing.
pub proof fn walk_starts_counted(
    root: GraphModel,
    path: Seq<char>,
    limits: FederationSettings,
    provider: bool,
)
    ensures
        walk_from(root, path, limits, provider).counted(),
{
}

/// A step loses count of nothing.
pub proof fn step_counts(walk: WalkModel)
    requires
        walk.stands(),
        walk.counted(),
    ensures
        walk.stepped().0.counted(),
{
    let after = walk.stepped().0;
    if walk.at_link() is Some {
        if after.statuses.len() > walk.statuses.len() {
            assert(after.statuses.drop_last() =~= walk.statuses);
        }
    } else if walk.place < walk.level.len() {
        let first = walk.sources.len() - walk.next.len() - walk.level.len();
        assert(walk.level[walk.place] == first + walk.place);
    }
}

/// An answer loses count of nothing.
pub proof fn answer_counts(walk: WalkModel, answer: AnswerModel)
    requires
        walk.stands(),
        walk.counted(),
    ensures
        walk.answered(answer).counted(),
{
    let after = walk.answered(answer);
    if let TurnModel::Ask(_) = walk.stepped().1 {
        assert(after.statuses.drop_last() =~= walk.statuses);
        if let AnswerModel::Opened { graph, path } = answer {
            let first = walk.sources.len() - walk.next.len() - walk.level.len();
            links_of_more(walk.sources, after.sources.last(), first + walk.place);
            assert(after.sources =~= walk.sources.push(after.sources.last()));
        }
    }
}

/// A finished walk has one status for each link that a source of it declares, and opened as
/// many databases as links are available.
pub proof fn finished_walk_accounts_for_every_link(walk: WalkModel)
    requires
        walk.stands(),
        walk.counted(),
        walk.stepped().1 is Done,
    ensures
        walk.statuses.len() == links_declared(walk.sources, walk.sources.len() as int),
        walk.sources.len() - 1 == available(walk.statuses),
{
}

} // verus!
