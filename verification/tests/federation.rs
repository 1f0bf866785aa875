use nostdb_core::diagnostic::DiagnosticCode;
use nostdb_core::federation::find_target;
use nostdb_core::federation::read_document;
use nostdb_core::federation::steps_out;
use nostdb_core::federation::Answer;
use nostdb_core::federation::Federation;
use nostdb_core::federation::Site;
use nostdb_core::federation::Target;
use nostdb_core::federation::Turn;
use nostdb_core::federation::Unreachable;
use nostdb_core::federation::Walk;
use nostdb_core::graph::Graph;
use nostdb_core::graph::Node;
use nostdb_core::id::LocalNodeId;
use nostdb_core::link::Link;
use nostdb_core::locator::CanonicalSourceLocator;
use nostdb_core::name::Label;
use nostdb_core::name::LinkAlias;
use nostdb_core::settings::FederationSettings;

fn limits() -> FederationSettings {
    FederationSettings {
        max_link_depth: 16,
        max_link_databases: 256,
        link_open_timeout_ms: 10_000,
    }
}

fn locator(value: &str) -> CanonicalSourceLocator {
    CanonicalSourceLocator::new(value).unwrap()
}

/// A graph holding one node with the given label, and the given links.
fn graph(marker: u8, label: &str, links: Vec<Link>) -> Graph {
    Graph {
        nodes: vec![Node {
            id: LocalNodeId::from_bytes([marker; 16]),
            labels: vec![Label::new(label).unwrap()],
            properties: Vec::new(),
            contributions: Vec::new(),
        }],
        edges: Vec::new(),
        links,
        schemas: Vec::new(),
    }
}

fn link(value: &str) -> Link {
    Link::new(locator(value))
}

/// Walks from a root over the given sources. A source without a graph cannot be read.
fn walk(
    root: Graph,
    sources: &[(&str, Option<Graph>)],
    limits: FederationSettings,
    provider: bool,
) -> Federation {
    let mut walk = Walk::new(root, "root.nostdb".to_owned(), limits, provider);
    loop {
        match walk.step() {
            Turn::Done => return walk.finish(),
            Turn::Moved => {}
            Turn::Ask(question) => {
                let found = sources
                    .iter()
                    .find(|(name, _)| *name == question.locator.as_str());
                let answer = match found {
                    None => Answer::Failed(Unreachable::NotFound),
                    Some((_, None)) => Answer::Failed(Unreachable::Unreadable {
                        reason: "not a container".to_owned(),
                    }),
                    Some((name, Some(graph))) => Answer::Opened {
                        graph: graph.clone(),
                        path: (*name).to_owned(),
                    },
                };
                walk.answer(answer);
            }
        }
    }
}

fn resolve(root: Graph, sources: &[(&str, Option<Graph>)]) -> Federation {
    walk(root, sources, limits(), false)
}

#[test]
fn a_root_with_no_links_resolves_to_itself() {
    let resolved = resolve(graph(1, "Root", Vec::new()), &[]);

    assert_eq!(resolved.sources.len(), 1);
    assert_eq!(resolved.linked_databases_opened(), 0);
    assert!(!resolved.is_partial());
    assert!(resolved.statuses.is_empty());
    assert!(resolved.warnings().is_empty());
}

#[test]
fn a_link_is_followed_recursively_and_depth_counts_the_hops() {
    let root = graph(1, "Root", vec![link("./child.nostdb")]);
    let resolved = resolve(
        root,
        &[
            ("./grandchild.nostdb", Some(graph(3, "Grandchild", Vec::new()))),
            (
                "./child.nostdb",
                Some(graph(2, "Child", vec![link("./grandchild.nostdb")])),
            ),
        ],
    );
    assert_eq!(resolved.linked_databases_opened(), 2, "{:?}", resolved.statuses);
    assert!(!resolved.is_partial());
    assert_eq!(resolved.sources[0].depth, 0);
    assert_eq!(resolved.sources[1].depth, 1);
    assert_eq!(resolved.sources[2].depth, 2);
    assert_eq!(
        resolved.sources[2].graph.nodes[0].labels[0].as_str(),
        "Grandchild"
    );
}

#[test]
fn a_cycle_is_cut_by_canonical_locator_rather_than_looping() {
    let root = graph(1, "Root", vec![link("./child.nostdb")]);
    let resolved = resolve(
        root,
        &[(
            "./child.nostdb",
            Some(graph(2, "Child", vec![link("./child.nostdb")])),
        )],
    );
    assert_eq!(resolved.linked_databases_opened(), 1);
    assert!(resolved.is_partial());
    let cut = resolved
        .statuses
        .iter()
        .find(|status| status.unreachable == Some(Unreachable::Cycle))
        .expect("the self link is cut");
    assert_eq!(cut.locator.as_str(), "./child.nostdb");
    assert_eq!(resolved.warnings()[0].code, DiagnosticCode::LinkCycle);
}

#[test]
fn one_reachable_locator_is_opened_once_however_many_declare_it() {
    let root = graph(1, "Root", vec![link("./left.nostdb"), link("./right.nostdb")]);
    let resolved = resolve(
        root,
        &[
            ("./shared.nostdb", Some(graph(4, "Shared", Vec::new()))),
            (
                "./left.nostdb",
                Some(graph(2, "Left", vec![link("./shared.nostdb")])),
            ),
            (
                "./right.nostdb",
                Some(graph(3, "Right", vec![link("./shared.nostdb")])),
            ),
        ],
    );
    assert_eq!(resolved.linked_databases_opened(), 3, "{:?}", resolved.statuses);
    let shared: Vec<_> = resolved
        .statuses
        .iter()
        .filter(|status| status.locator.as_str() == "./shared.nostdb")
        .collect();
    assert_eq!(shared.len(), 2, "both declarations are reported");
    assert_eq!(
        shared.iter().filter(|status| status.is_available()).count(),
        1,
        "and only one of them opened it"
    );
}

#[test]
fn a_missing_target_stays_declared_and_yields_a_warning() {
    let root = graph(1, "Root", vec![link("./absent.nostdb")]);
    let resolved = resolve(root, &[]);
    assert_eq!(resolved.linked_databases_opened(), 0);
    assert!(resolved.is_partial());
    assert_eq!(resolved.statuses.len(), 1, "the declaration survives");
    assert_eq!(resolved.statuses[0].unreachable, Some(Unreachable::NotFound));

    let warnings = resolved.warnings();
    assert_eq!(warnings[0].code, DiagnosticCode::LinkUnavailable);
    assert_eq!(
        warnings[0].source.as_ref().map(CanonicalSourceLocator::as_str),
        Some("./absent.nostdb")
    );
}

#[test]
fn a_remote_locator_says_there_is_no_provider_rather_than_no_file() {
    let root = graph(
        1,
        "Root",
        vec![link("github://example/shared/root.nostdb?ref=main")],
    );
    let resolved = resolve(root, &[]);
    assert_eq!(
        resolved.statuses[0].unreachable,
        Some(Unreachable::NoProvider {
            scheme: "github".to_owned()
        })
    );
    assert!(resolved.warnings()[0].message.as_str().contains("github"));
}

#[test]
fn a_corrupt_target_is_unavailable_rather_than_fatal() {
    let root = graph(1, "Root", vec![link("./broken.nostdb")]);
    let resolved = resolve(root, &[("./broken.nostdb", None)]);
    assert!(matches!(
        resolved.statuses[0].unreachable,
        Some(Unreachable::Unreadable { .. })
    ));
    assert_eq!(resolved.root().nodes.len(), 1);
}

#[test]
fn a_document_is_a_valid_target() {
    let child = read_document("@nost 2\nnode child: Child {}\n").expect("a document");
    let root = graph(1, "Root", vec![link("./child.nost")]);
    let resolved = resolve(root, &[("./child.nost", Some(child))]);
    assert_eq!(resolved.linked_databases_opened(), 1, "{:?}", resolved.statuses);
    assert_eq!(
        resolved.sources[1].graph.nodes[0].labels[0].as_str(),
        "Child"
    );
}

#[test]
fn a_document_that_does_not_parse_or_convert_is_unreadable() {
    assert!(matches!(
        read_document("@nost"),
        Err(Unreachable::Unreadable { .. })
    ));
    assert!(matches!(
        read_document("@nost 1\n"),
        Err(Unreachable::Unreadable { .. })
    ));
}

#[test]
fn the_depth_limit_stops_traversal_and_says_what_it_cut() {
    let root = graph(1, "Root", vec![link("./child.nostdb")]);
    let shallow = FederationSettings {
        max_link_depth: 1,
        ..limits()
    };
    let resolved = walk(
        root,
        &[
            ("./grandchild.nostdb", Some(graph(3, "Grandchild", Vec::new()))),
            (
                "./child.nostdb",
                Some(graph(2, "Child", vec![link("./grandchild.nostdb")])),
            ),
        ],
        shallow,
        false,
    );
    assert_eq!(resolved.linked_databases_opened(), 1, "only the child");
    assert!(resolved.is_partial());
    let cut = resolved
        .statuses
        .iter()
        .find(|status| {
            status.unreachable
                == Some(Unreachable::LimitExceeded {
                    limit: "max_link_depth",
                })
        })
        .expect("the grandchild is named as cut");
    assert_eq!(cut.locator.as_str(), "./grandchild.nostdb");
    assert_eq!(resolved.warnings().len(), 1);
    assert_eq!(resolved.warnings()[0].code, DiagnosticCode::LinkLimitExceeded);
}

#[test]
fn the_database_limit_stops_opening_further_sources() {
    let root = graph(1, "Root", vec![link("./one.nostdb"), link("./two.nostdb")]);
    let capped = FederationSettings {
        max_link_databases: 1,
        ..limits()
    };
    let resolved = walk(
        root,
        &[
            ("./one.nostdb", Some(graph(2, "One", Vec::new()))),
            ("./two.nostdb", Some(graph(3, "Two", Vec::new()))),
        ],
        capped,
        false,
    );
    assert_eq!(resolved.linked_databases_opened(), 1);
    assert_eq!(
        resolved
            .statuses
            .iter()
            .filter(|status| status.unreachable
                == Some(Unreachable::LimitExceeded {
                    limit: "max_link_databases"
                }))
            .count(),
        1,
        "{:?}",
        resolved.statuses
    );
    assert!(resolved.is_partial());
}

#[test]
fn an_alias_and_the_declaring_source_are_recorded() {
    let root = graph(
        1,
        "Root",
        vec![Link::with_alias(
            locator("./child.nostdb"),
            LinkAlias::new("child").unwrap(),
        )],
    );
    let resolved = resolve(root, &[("./child.nostdb", Some(graph(2, "Child", Vec::new())))]);
    assert_eq!(resolved.statuses[0].alias.as_deref(), Some("child"));
    assert_eq!(resolved.statuses[0].declared_by, None, "declared by the root");
    assert_eq!(resolved.statuses[0].depth, 0);
}

#[test]
fn a_link_declared_by_a_linked_source_records_who_declared_it() {
    let root = graph(1, "Root", vec![link("./child.nostdb")]);
    let resolved = resolve(
        root,
        &[
            ("./grandchild.nostdb", Some(graph(3, "Grandchild", Vec::new()))),
            (
                "./child.nostdb",
                Some(graph(2, "Child", vec![link("./grandchild.nostdb")])),
            ),
        ],
    );
    let nested = resolved
        .statuses
        .iter()
        .find(|status| status.locator.as_str() == "./grandchild.nostdb")
        .expect("the nested declaration is recorded");
    assert_eq!(
        nested.declared_by.as_ref().map(CanonicalSourceLocator::as_str),
        Some("./child.nostdb")
    );
    assert_eq!(nested.depth, 1);
}

#[test]
fn two_sources_carrying_the_same_identifier_stay_distinct() {
    let root = graph(1, "Root", vec![link("./copy.nostdb")]);
    let resolved = resolve(root, &[("./copy.nostdb", Some(graph(1, "Copy", Vec::new())))]);
    assert_eq!(resolved.sources.len(), 2);
    assert_eq!(
        resolved.sources[0].graph.nodes[0].id, resolved.sources[1].graph.nodes[0].id,
        "the identifiers really do collide"
    );
    assert_ne!(
        resolved.sources[0].locator, resolved.sources[1].locator,
        "and the locators are what tell them apart"
    );
}

#[test]
fn a_remote_link_with_no_provider_says_so_rather_than_reporting_it_missing() {
    let root = graph(1, "Root", vec![link("github://example/payments/?ref=main")]);
    let resolved = resolve(root, &[]);
    assert!(matches!(
        resolved.statuses[0].unreachable,
        Some(Unreachable::NoProvider { .. })
    ));
    assert!(resolved.is_partial());
}

#[test]
fn a_remote_link_opens_through_a_provider_and_joins_the_federation() {
    let remote = "github://example/payments/?ref=main";
    let root = graph(1, "Root", vec![link(remote)]);
    let resolved = walk(
        root,
        &[(remote, Some(graph(2, "Remote", Vec::new())))],
        limits(),
        true,
    );
    assert_eq!(resolved.linked_databases_opened(), 1, "{:?}", resolved.statuses);
    assert_eq!(
        resolved.sources[1].graph.nodes[0].labels[0].as_str(),
        "Remote"
    );
    assert!(!resolved.is_partial());
}

#[test]
fn the_links_of_a_remote_source_are_not_followed() {
    let remote = "github://example/payments/?ref=main";
    let root = graph(1, "Root", vec![link(remote)]);
    let resolved = walk(
        root,
        &[
            (remote, Some(graph(2, "Remote", vec![link("./child.nostdb")]))),
            ("./child.nostdb", Some(graph(3, "Child", Vec::new()))),
        ],
        limits(),
        true,
    );
    assert_eq!(resolved.linked_databases_opened(), 1);
    assert_eq!(resolved.statuses.len(), 2, "every declared link is accounted for");
    assert_eq!(resolved.statuses[1].locator, locator("./child.nostdb"));
    assert_eq!(resolved.statuses[1].declared_by, Some(locator(remote)));
    assert!(matches!(
        &resolved.statuses[1].unreachable,
        Some(Unreachable::LimitExceeded { limit }) if limit.contains("remote")
    ));
    assert!(resolved.is_partial());
}

#[test]
fn a_remote_source_that_will_not_decode_is_unreachable_rather_than_fatal() {
    let remote = "github://example/payments/?ref=main";
    let root = graph(1, "Root", vec![link(remote)]);
    let resolved = walk(root, &[(remote, None)], limits(), true);
    assert!(matches!(
        resolved.statuses[0].unreachable,
        Some(Unreachable::Unreadable { .. })
    ));
    assert_eq!(resolved.sources[0].graph.nodes.len(), 1, "the root survives");
}

#[test]
fn a_provider_that_refuses_leaves_the_link_declared() {
    let remote = "github://example/payments/?ref=main";
    let root = graph(1, "Root", vec![link(remote)]);
    let resolved = walk(root, &[(remote, None)], limits(), true);
    assert_eq!(resolved.statuses.len(), 1, "the link is still declared");
    assert!(resolved.statuses[0].unreachable.is_some());
    assert!(resolved.is_partial());
}

#[test]
fn a_local_link_beside_a_remote_one_still_opens() {
    let remote = "github://example/payments/?ref=main";
    let root = graph(1, "Root", vec![link("./child"), link(remote)]);
    let resolved = walk(
        root,
        &[
            ("./child", Some(graph(3, "Child", Vec::new()))),
            (remote, Some(graph(2, "Remote", Vec::new()))),
        ],
        limits(),
        true,
    );
    assert_eq!(resolved.linked_databases_opened(), 2, "{:?}", resolved.statuses);
}

#[test]
fn a_locator_is_a_file_before_it_is_a_project() {
    let nothing = Site {
        is_file: false,
        is_document: false,
        is_directory: false,
        has_settings: false,
        has_named: false,
        has_default: false,
    };
    assert_eq!(find_target(nothing), None);
    assert_eq!(
        find_target(Site { is_file: true, ..nothing }),
        Some(Target::Database)
    );
    assert_eq!(
        find_target(Site { is_file: true, is_document: true, ..nothing }),
        Some(Target::Document)
    );
    let project = Site { is_directory: true, has_default: true, ..nothing };
    assert_eq!(find_target(project), Some(Target::DefaultDatabase));
    assert_eq!(
        find_target(Site { has_settings: true, has_named: true, ..project }),
        Some(Target::NamedDatabase)
    );
    assert_eq!(
        find_target(Site { has_settings: true, ..project }),
        Some(Target::DefaultDatabase)
    );
    assert_eq!(find_target(Site { has_default: false, ..project }), None);
    assert_eq!(find_target(Site { is_directory: false, ..project }), None);
}

#[test]
fn the_base_steps_out_of_the_state_directory_alone() {
    assert!(steps_out(Some(".nostdb")));
    assert!(!steps_out(Some("packages")));
    assert!(!steps_out(None));
}

#[test]
fn every_reason_has_its_words_and_code() {
    for (reason, words, code) in [
        (
            Unreachable::NoProvider { scheme: "github".to_owned() },
            "github",
            DiagnosticCode::LinkUnavailable,
        ),
        (Unreachable::Cycle, "", DiagnosticCode::LinkCycle),
        (
            Unreachable::LimitExceeded { limit: "max_link_depth" },
            "max_link_depth",
            DiagnosticCode::LinkLimitExceeded,
        ),
        (
            Unreachable::Unreadable { reason: "torn".to_owned() },
            "torn",
            DiagnosticCode::LinkUnavailable,
        ),
        (Unreachable::NotFound, "", DiagnosticCode::LinkUnavailable),
    ] {
        assert!(reason.to_string().contains(words));
        assert_eq!(reason.code(), code);
    }
}
