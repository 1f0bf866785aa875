use nostdb_core::locator::CanonicalSourceLocator;
use nostdb_core::evidence::Confidence;
use nostdb_core::evidence::ContentDigest;
use nostdb_core::contribution::Contribution;
use nostdb_core::procedure::DatabaseContext;
use nostdb_core::diagnostic::DiagnosticCode;
use nostdb_core::procedure::EVIDENCE_ROW_LIMIT;
use nostdb_core::evidence::Evidence;
use nostdb_core::evidence::EvidenceMethod;
use nostdb_core::procedure::FUNCTIONS;
use nostdb_core::generation::Generation;
use nostdb_core::graph::Graph;
use nostdb_core::name::Label;
use nostdb_core::link::Link;
use nostdb_core::name::LinkAlias;
use nostdb_core::id::LocalNodeId;
use nostdb_core::procedure::NAMESPACE;
use nostdb_core::graph::Node;
use nostdb_core::text::NonEmptyText;
use nostdb_core::contribution::Owner;
use nostdb_core::value::QueryValue;
use nostdb_core::value::Scoped;
use nostdb_core::evidence::Score;
use nostdb_core::evidence::SourcePosition;
use nostdb_core::evidence::SourceRange;
use nostdb_core::id::SourceUnitId;
use nostdb_core::procedure::function;
use nostdb_core::procedure::lookup;
use nostdb_core::procedure::procedures;
use nostdb_core::procedure::run;

fn locator(value: &str) -> CanonicalSourceLocator {
    CanonicalSourceLocator::new(value).unwrap()
}

fn evidence() -> Evidence {
    Evidence {
        source: locator("./packages/child"),
        resolved_revision: Some(NonEmptyText::new("a1b2c3").unwrap()),
        path: Some(NonEmptyText::new("src/auth.rs").unwrap()),
        content_digest: ContentDigest::new("sha256:abcdef0123456789abcdef0123456789").unwrap(),
        range: SourceRange::new(
            SourcePosition {
                line: 4,
                column: 1,
                offset: 30,
            },
            SourcePosition {
                line: 9,
                column: 2,
                offset: 90,
            },
        )
        .ok(),
        producer: NonEmptyText::new("rust-structural").unwrap(),
        producer_version: NonEmptyText::new("0.1.0").unwrap(),
        method: EvidenceMethod::Deterministic,
        confidence: Confidence::Inferred {
            score: Score::new(0.5_f32.to_bits()).unwrap(),
        },
    }
}

fn graph() -> Graph {
    Graph {
        nodes: vec![Node {
            id: LocalNodeId::from_bytes([1; 16]),
            labels: vec![Label::new("Function").unwrap()],
            properties: Vec::new(),
            contributions: vec![Contribution {
                owner: Owner::User,
                source_unit: SourceUnitId::query(),
                evidence: vec![evidence()],
            }],
        }],
        edges: Vec::new(),
        links: vec![
            Link::new(locator("./packages/child")),
            Link::with_alias(
                locator("github://example/shared/?ref=main"),
                LinkAlias::new("shared").unwrap(),
            ),
        ],
        schemas: Vec::new(),
    }
}

fn origin() -> SourceRange {
    SourceRange::origin()
}

#[test]
fn every_registered_procedure_declares_columns_and_a_unique_name() {
    let mut seen = std::collections::BTreeSet::new();
    for procedure in procedures() {
        assert!(seen.insert(procedure.name), "{} twice", procedure.name);
        assert!(!procedure.columns.is_empty(), "{}", procedure.name);
        assert!(
            procedure.name.starts_with(NAMESPACE),
            "{} is outside the namespace",
            procedure.name
        );
    }
    for name in FUNCTIONS {
        assert!(
            name.starts_with(NAMESPACE),
            "{name} is outside the namespace"
        );
    }
}

#[test]
fn links_yields_one_row_per_declaration_including_the_aliasless_one() {
    let graph = graph();
    let rows = run(
        &lookup("nostdb.links", origin()).unwrap(),
        &[],
        &graph,
        &DatabaseContext::default(),
        origin(),
    )
    .unwrap();
    assert_eq!(rows.len(), 2);
    assert_eq!(rows[0][1], QueryValue::Null);
    assert_eq!(rows[0][2], QueryValue::Boolean(false));
    assert_eq!(rows[1][1], QueryValue::Text("shared".to_owned()));
    assert_eq!(rows[1][2], QueryValue::Boolean(true));
}

#[test]
fn build_status_reports_the_generation_it_was_given_and_null_without_one() {
    let graph = graph();
    let known = DatabaseContext {
        generation: Some(Generation::from_raw(42)),
        source: None,
    };
    let rows = run(
        &lookup("nostdb.build_status", origin()).unwrap(),
        &[],
        &graph,
        &known,
        origin(),
    )
    .unwrap();
    assert_eq!(rows.len(), 1);
    assert_eq!(rows[0][0], QueryValue::Integer(42));
    assert_eq!(rows[0][1], QueryValue::Integer(1));
    assert_eq!(rows[0][3], QueryValue::Integer(2));

    let rows = run(
        &lookup("nostdb.build_status", origin()).unwrap(),
        &[],
        &graph,
        &DatabaseContext::default(),
        origin(),
    )
    .unwrap();
    assert_eq!(rows[0][0], QueryValue::Null);
}

#[test]
fn evidence_yields_stored_metadata_and_never_source_content() {
    let graph = graph();
    let rows = run(
        &lookup("nostdb.evidence", origin()).unwrap(),
        &[QueryValue::Node(Scoped::root(LocalNodeId::from_bytes([1; 16])))],
        &graph,
        &DatabaseContext::default(),
        origin(),
    )
    .unwrap();
    assert_eq!(rows.len(), 1);
    let columns = procedures()[2].columns.clone();
    assert_eq!(rows[0].len(), columns.len());
    assert_eq!(rows[0][0], QueryValue::Text("./packages/child".to_owned()));
    assert_eq!(rows[0][1], QueryValue::Text("src/auth.rs".to_owned()));
    assert_eq!(rows[0][6], QueryValue::Text("deterministic".to_owned()));
    assert_eq!(rows[0][9], QueryValue::Integer(4));
    assert_eq!(rows[0][12], QueryValue::Integer(2));
}

#[test]
fn a_capability_gated_procedure_is_unsupported_rather_than_a_plausible_answer() {
    let error = run(
        &lookup("nostdb.refresh_links", origin()).unwrap(),
        &[],
        &graph(),
        &DatabaseContext::default(),
        origin(),
    )
    .unwrap_err();
    assert_eq!(error.code, DiagnosticCode::CypherUnsupported);
    assert!(error.message.contains("source provider"), "{}",
        error.message);
}

#[test]
fn an_unknown_procedure_is_a_semantic_error_because_retrying_will_not_help() {
    let error = lookup("nostdb.invent", origin()).unwrap_err();
    assert_eq!(error.code, DiagnosticCode::CypherSemanticError);
}

#[test]
fn a_wrong_argument_count_is_reported_rather_than_ignored() {
    let error = run(
        &lookup("nostdb.links", origin()).unwrap(),
        &[QueryValue::Integer(1)],
        &graph(),
        &DatabaseContext::default(),
        origin(),
    )
    .unwrap_err();
    assert_eq!(error.code, DiagnosticCode::CypherSemanticError);
}

#[test]
fn functions_read_the_first_evidence_and_the_context_source() {
    let graph = graph();
    let context = DatabaseContext {
        generation: None,
        source: Some(locator("./packages/child")),
    };
    let node = [QueryValue::Node(Scoped::root(LocalNodeId::from_bytes([1; 16])))];

    assert_eq!(
        function("nostdb.source", &node, &graph, &context, origin()).unwrap(),
        QueryValue::Text("./packages/child".to_owned())
    );
    assert_eq!(
        function("nostdb.source_location", &node, &graph, &context, origin()).unwrap(),
        QueryValue::Text("src/auth.rs".to_owned())
    );
    assert_eq!(
        function("nostdb.source_revision", &node, &graph, &context, origin()).unwrap(),
        QueryValue::Text("a1b2c3".to_owned())
    );
    assert_eq!(
        function("nostdb.is_available", &node, &graph, &context, origin()).unwrap(),
        QueryValue::Boolean(true)
    );
}

#[test]
fn source_is_null_when_the_caller_named_no_database() {
    let node = [QueryValue::Node(Scoped::root(LocalNodeId::from_bytes([1; 16])))];
    assert_eq!(
        function(
            "nostdb.source",
            &node,
            &graph(),
            &DatabaseContext::default(),
            origin()
        )
        .unwrap(),
        QueryValue::Null
    );
}

#[test]
fn a_null_argument_yields_null_rather_than_failing() {
    assert_eq!(
        function(
            "nostdb.source_location",
            &[QueryValue::Null],
            &graph(),
            &DatabaseContext::default(),
            origin()
        )
        .unwrap(),
        QueryValue::Null
    );
    assert!(
        run(
            &lookup("nostdb.evidence", origin()).unwrap(),
            &[QueryValue::Null],
            &graph(),
            &DatabaseContext::default(),
            origin()
        )
        .unwrap()
        .is_empty()
    );
}

#[test]
fn a_value_that_is_not_a_record_is_refused() {
    let error = function(
        "nostdb.source_location",
        &[QueryValue::Integer(1)],
        &graph(),
        &DatabaseContext::default(),
        origin(),
    )
    .unwrap_err();
    assert_eq!(error.code, DiagnosticCode::CypherSemanticError);
    assert!(error.message.contains("integer"), "{}",
        error.message);
}

#[test]
fn the_evidence_row_limit_bounds_what_an_untrusted_file_can_ask_for() {
    let mut graph = graph();
    graph.nodes[0].contributions[0].evidence =
        (0..EVIDENCE_ROW_LIMIT + 50).map(|_| evidence()).collect();
    let rows = run(
        &lookup("nostdb.evidence", origin()).unwrap(),
        &[QueryValue::Node(Scoped::root(LocalNodeId::from_bytes([1; 16])))],
        &graph,
        &DatabaseContext::default(),
        origin(),
    )
    .unwrap();
    assert_eq!(rows.len(), EVIDENCE_ROW_LIMIT);
}

#[test]
fn every_function_yields_null_for_null() {
    for name in FUNCTIONS {
        assert_eq!(
            function(name, &[QueryValue::Null], &graph(), &DatabaseContext::default(), origin())
                .unwrap(),
            QueryValue::Null,
            "{name}"
        );
    }
}
