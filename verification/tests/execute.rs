use nostdb_core::cypher::BinaryOperator;
use nostdb_core::execute::Bindings;
use nostdb_core::locator::CanonicalSourceLocator;
use nostdb_core::cypher::Clause;
use nostdb_core::evidence::Confidence;
use nostdb_core::evidence::ContentDigest;
use nostdb_core::contribution::Contribution;
use nostdb_core::execute::DatabaseContext;
use nostdb_core::diagnostic::DiagnosticCode;
use nostdb_core::cypher::Direction;
use nostdb_core::graph::Edge;
use nostdb_core::evidence::Evidence;
use nostdb_core::evidence::EvidenceMethod;
use nostdb_core::cypher::Expression;
use nostdb_core::property::FiniteF64;
use nostdb_core::generation::Generation;
use nostdb_core::graph::Graph;
use nostdb_core::name::Label;
use nostdb_core::cypher::LengthRange;
use nostdb_core::link::Link;
use nostdb_core::execute::LinkedSource;
use nostdb_core::id::LocalEdgeId;
use nostdb_core::id::LocalNodeId;
use nostdb_core::id::Minter;
use nostdb_core::graph::Node;
use nostdb_core::cypher::NodePattern;
use nostdb_core::graph::NodeReference;
use nostdb_core::text::NonEmptyText;
use nostdb_core::contribution::Owner;
use nostdb_core::contribution::OwnerKind;
use nostdb_core::execute::Parameters;
use nostdb_core::cypher::Pattern;
use nostdb_core::mutate::PatternValues;
use nostdb_core::cypher::ProcedureCall;
use nostdb_core::cypher::Projection;
use nostdb_core::cypher::ProjectionItem;
use nostdb_core::name::PropertyKey;
use nostdb_core::property::PropertyValue;
use nostdb_core::cypher::Query;
use nostdb_core::cypher::QueryError;
use nostdb_core::cypher::QueryPart;
use nostdb_core::execute::QueryResult;
use nostdb_core::execute::QueryValue;
use nostdb_core::name::RelationName;
use nostdb_core::cypher::RelationshipPattern;
use nostdb_core::cypher::RemoveItem;
use nostdb_core::cypher::STAR_ARGUMENT;
use nostdb_core::graph::ScopedNodeId;
use nostdb_core::cypher::SetItem;
use nostdb_core::cypher::SortItem;
use nostdb_core::evidence::SourceRange;
use nostdb_core::id::SourceUnitId;
use nostdb_core::mutate::WriteSummary;
use nostdb_core::mutate::Writer;
use nostdb_core::cypher::YieldItem;
use nostdb_core::cancel::Never;
use nostdb_core::cancel::ShouldStop;
use nostdb_core::clauses::heed;
use nostdb_core::execute::execute;
use nostdb_core::execute::execute_cancellable;
use nostdb_core::execute::execute_federated;

#[test]
fn a_label_no_record_carries_warns_and_still_executes() {
    let mut graph = Graph::default();
    graph.nodes.push(node(1, &["File"], &[]));

    let query = parse("MATCH (n:Endpoint) RETURN n").expect("parses");
    let result = execute(
        &query,
        &mut graph,
        &Parameters::default(),
        &DatabaseContext::default(),
    )
    .expect("it executes rather than refusing");
    assert!(result.rows.is_empty(), "and finds nothing");
    assert_eq!(result.warnings.len(), 1, "{:?}", result.warnings);
    assert_eq!(
        result.warnings[0].code.as_str(),
        "CYPHER_UNKNOWN_LABEL",
        "{:?}",
        result.warnings[0]
    );
    assert!(
        result.warnings[0].message.as_str().contains("Endpoint"),
        "it names the label: {:?}",
        result.warnings[0]
    );

    let query = parse("MATCH (n:File) WHERE n.path = 'absent' RETURN n")
        .expect("parses");
    let result = execute(
        &query,
        &mut graph,
        &Parameters::default(),
        &DatabaseContext::default(),
    )
    .expect("executes");
    assert!(result.rows.is_empty());
    assert!(
        result.warnings.is_empty(),
        "a carried label warns about nothing: {:?}",
        result.warnings
    );
}

#[test]
fn a_label_a_query_creates_is_not_warned_about() {
    let mut graph = Graph::default();
    let query = parse("CREATE (n:Brand {name: 'x'}) RETURN n").expect("parses");
    let result = execute(
        &query,
        &mut graph,
        &Parameters::default(),
        &DatabaseContext::default(),
    )
    .expect("executes");
    assert!(
        result.warnings.is_empty(),
        "warning here would be warning about the record being created: {:?}",
        result.warnings
    );
}


fn contribution() -> Contribution {
    Contribution {
        owner: Owner::user(),
        source_unit: SourceUnitId::from_bytes([1; 16]),
        evidence: Vec::new(),
    }
}

fn node(byte: u8, labels: &[&str], properties: &[(&str, PropertyValue)]) -> Node {
    Node {
        id: LocalNodeId::from_bytes([byte; 16]),
        labels: labels.iter().map(|l| Label::new(l).unwrap()).collect(),
        properties: properties
            .iter()
            .map(|(key, value)| (PropertyKey::new(key).unwrap(), value.clone()))
            .collect(),
        contributions: vec![contribution()],
    }
}

fn edge(byte: u8, from: u8, to: u8, relation: &str) -> Edge {
    Edge {
        id: LocalEdgeId::from_bytes([byte; 16]),
        source: NodeReference::Local(LocalNodeId::from_bytes([from; 16])),
        target: NodeReference::Local(LocalNodeId::from_bytes([to; 16])),
        relation: RelationName::new(relation).unwrap(),
        properties: Vec::new(),
        contributions: vec![contribution()],
    }
}

fn graph() -> Graph {
    Graph {
        nodes: vec![
            node(0xA, &["Service"], &[("name", PropertyValue::from("alpha"))]),
            node(0xB, &["Service"], &[("name", PropertyValue::from("beta"))]),
            node(
                0xC,
                &["Database"],
                &[
                    ("name", PropertyValue::from("primary")),
                    ("size", PropertyValue::Integer(10)),
                ],
            ),
            node(
                0xD,
                &["Database"],
                &[
                    ("name", PropertyValue::from("lonely")),
                    ("size", PropertyValue::Integer(4)),
                ],
            ),
        ],
        edges: vec![edge(0x1, 0xA, 0xB, "CALLS"), edge(0x2, 0xB, 0xC, "CALLS")],
        links: vec![Link::new(
            CanonicalSourceLocator::new("./packages/child").unwrap(),
        )],
        schemas: Vec::new(),
    }
}

fn run(source: &str) -> QueryResult {
    run_on(&mut graph(), source)
}

fn run_on(graph: &mut Graph, source: &str) -> QueryResult {
    let query = parse(source).unwrap_or_else(|error| panic!("{source}: {error}"));
    execute(
        &query,
        graph,
        &Parameters::new(),
        &DatabaseContext::default(),
    )
    .unwrap_or_else(|error| panic!("{source}: {}", error.message))
}

fn refuse(source: &str) -> QueryError {
    refuse_on(&mut graph(), source)
}

fn refuse_on(graph: &mut Graph, source: &str) -> QueryError {
    let query = parse(source).unwrap_or_else(|error| panic!("{source}: {error}"));
    execute(
        &query,
        graph,
        &Parameters::new(),
        &DatabaseContext::default(),
    )
    .expect_err(source)
}

fn run_with(source: &str, parameters: Parameters) -> QueryResult {
    let query = parse(source).unwrap();
    execute(
        &query,
        &mut graph(),
        &parameters,
        &DatabaseContext::default(),
    )
    .unwrap()
}

fn texts(result: &QueryResult) -> Vec<String> {
    result
        .rows
        .iter()
        .map(|row| {
            row.iter()
                .map(|value| value.to_string())
                .collect::<Vec<_>>()
                .join("|")
        })
        .collect()
}

struct StopsAfter {
    asked: std::cell::Cell<u32>,
    limit: u32,
}

impl ShouldStop for StopsAfter {
    fn must_stop(&self) -> bool {
        false
    }

    fn may_stop(&self) -> bool {
        true
    }

    fn should_stop(&self) -> bool {
        self.asked.set(self.asked.get() + 1);
        self.asked.get() > self.limit
    }

    fn reason(&self) -> String {
        "the caller gave up".to_owned()
    }
}

fn stop_after(graph: &mut Graph, source: &str, limit: u32) -> Result<QueryResult, QueryError> {
    let query = parse(source).unwrap();
    execute_cancellable(
        &query,
        graph,
        &Parameters::new(),
        &DatabaseContext::default(),
        &StopsAfter {
            asked: std::cell::Cell::new(0),
            limit,
        },
    )
}

#[test]
fn a_query_that_is_stopped_at_once_changes_nothing_and_says_why() {
    let mut target = graph();
    let before = target.clone();
    let stopped = stop_after(&mut target, "CREATE (n:New)", 0).expect_err("stopped");
    assert!(stopped.message.contains("the caller gave up"), "{}", stopped.message);
    assert_eq!(target, before);
}

#[test]
fn a_query_that_is_never_stopped_answers_as_one_that_cannot_be() {
    let query = parse("MATCH (n:Service) RETURN n.name ORDER BY n.name").unwrap();
    let free = execute_cancellable(
        &query,
        &mut graph(),
        &Parameters::new(),
        &DatabaseContext::default(),
        &Never,
    )
    .unwrap();
    let patient = stop_after(
        &mut graph(),
        "MATCH (n:Service) RETURN n.name ORDER BY n.name",
        u32::MAX,
    )
    .unwrap();
    assert_eq!(texts(&free), vec!["alpha", "beta"]);
    assert_eq!(texts(&free), texts(&patient));
}

#[test]
fn a_query_may_be_stopped_between_two_clauses() {
    let source = "MATCH (n:Service) MATCH (m:Database) RETURN n.name, m.name";
    let mut asked = 0;
    while stop_after(&mut graph(), source, asked).is_err() {
        asked += 1;
    }
    assert!(asked > 1, "it is asked more than once");
}

#[test]
fn every_write_is_counted_and_a_read_counts_nothing() {
    let mut target = graph();
    let created = run_on(&mut target, "CREATE (a:One)-[:R]->(b:Two)");
    assert_eq!(created.writes.nodes_created, 2);
    assert_eq!(created.writes.edges_created, 1);
    let read = run_on(&mut target, "MATCH (n) RETURN count(*)");
    assert!(read.writes.is_empty());
    let removed = run_on(&mut target, "MATCH (n:One) DETACH DELETE n");
    assert_eq!(removed.writes.nodes_deleted, 1);
    assert_eq!(removed.writes.edges_deleted, 1);
    assert!(target
        .edges
        .iter()
        .all(|edge| target.nodes.iter().any(|node| Some(node.id) == edge.source.local())));
}

#[test]
fn upper_and_lower_case_follow_the_whole_text() {
    assert_eq!(texts(&run("RETURN toUpper('stra\u{df}e')")), vec!["STRASSE"]);
    assert_eq!(texts(&run("RETURN toLower('\u{c9}T\u{c9}')")), vec!["\u{e9}t\u{e9}"]);
}

#[test]
fn every_row_has_a_value_for_every_column() {
    for source in [
        "MATCH (n:Service) RETURN n.name, n",
        "MATCH (n) RETURN n.name AS name, count(*) AS many",
        "UNWIND [1, 2, 3] AS x RETURN x, x * 2",
    ] {
        let result = run(source);
        assert!(result.row_count() > 0);
        for row in &result.rows {
            assert_eq!(row.len(), result.columns.len(), "{source}");
        }
    }
}

#[test]
fn matches_by_label_and_projects_a_property() {
    let result = run("MATCH (n:Service) RETURN n.name ORDER BY n.name");
    assert_eq!(result.columns, vec!["n.name"]);
    assert_eq!(texts(&result), vec!["alpha", "beta"]);
    assert!(result.writes.is_empty());
}

#[test]
fn a_pattern_requiring_two_labels_matches_nothing_here() {
    assert_eq!(
        run("MATCH (n:Service:Database) RETURN n.name").row_count(),
        0
    );
}

#[test]
fn traverses_a_relationship_in_both_directions() {
    assert_eq!(
        texts(&run(
            "MATCH (a:Service)-[:CALLS]->(b) RETURN a.name, b.name ORDER BY a.name"
        )),
        vec!["alpha|beta", "beta|primary"]
    );
    assert_eq!(
        texts(&run(
            "MATCH (a)<-[:CALLS]-(b:Service) RETURN a.name ORDER BY a.name"
        )),
        vec!["beta", "primary"]
    );
    assert_eq!(
        run("MATCH (a:Service)-[:CALLS]-(b) RETURN a.name").row_count(),
        3
    );
}

#[test]
fn a_bounded_variable_length_pattern_walks_up_to_its_maximum() {
    assert_eq!(
        texts(&run(
            "MATCH (a:Service)-[:CALLS*1..2]->(b) WHERE a.name = \"alpha\" RETURN b.name ORDER BY b.name"
        )),
        vec!["beta", "primary"]
    );
    assert_eq!(
        texts(&run(
            "MATCH (a:Service)-[:CALLS*1..1]->(b) WHERE a.name = \"alpha\" RETURN b.name"
        )),
        vec!["beta"]
    );
}

#[test]
fn an_optional_match_keeps_the_row_and_yields_null() {
    let result = run(
        "MATCH (d:Database) OPTIONAL MATCH (d)-[:CALLS]->(x) RETURN d.name, x.name ORDER BY d.name",
    );
    assert_eq!(texts(&result), vec!["lonely|null", "primary|null"]);
}

#[test]
fn where_filters_and_null_never_passes() {
    assert_eq!(
        texts(&run("MATCH (n) WHERE n.size > 5 RETURN n.name")),
        vec!["primary"]
    );
    assert_eq!(
        run("MATCH (n) WHERE n.size < 100 RETURN n.name").row_count(),
        2
    );
}

#[test]
fn distinct_removes_duplicate_rows() {
    assert_eq!(run("MATCH (n) RETURN n.name").row_count(), 4);
    assert_eq!(
        run("MATCH (a:Service)-[:CALLS]-(b) RETURN DISTINCT a.name").row_count(),
        2
    );
}

#[test]
fn order_by_descending_reverses_the_ascending_order() {
    let ascending = texts(&run("MATCH (n) RETURN n.name ORDER BY n.name"));
    let descending = texts(&run("MATCH (n) RETURN n.name ORDER BY n.name DESC"));
    let mut reversed = ascending.clone();
    reversed.reverse();
    assert_eq!(descending, reversed);
    assert_eq!(ascending, vec!["alpha", "beta", "lonely", "primary"]);
}

#[test]
fn skip_and_limit_page_through_an_ordered_result() {
    assert_eq!(
        texts(&run(
            "MATCH (n) RETURN n.name ORDER BY n.name SKIP 1 LIMIT 2"
        )),
        vec!["beta", "lonely"]
    );
    assert_eq!(
        run("MATCH (n) RETURN n.name ORDER BY n.name SKIP 10").row_count(),
        0
    );
}

#[test]
fn a_negative_limit_is_a_semantic_error() {
    assert_eq!(
        refuse("MATCH (n) RETURN n.name LIMIT -1").code,
        DiagnosticCode::CypherSemanticError
    );
}

#[test]
fn negative_numbers_order_by_value() {
    assert_eq!(
        texts(&run("UNWIND [-5, 3, -3, 0, 5] AS n RETURN n ORDER BY n")),
        vec!["-5", "-3", "0", "3", "5"]
    );
    assert_eq!(
        texts(&run("UNWIND [-5, -3] AS n RETURN n ORDER BY n DESC")),
        vec!["-3", "-5"]
    );
}

#[test]
fn an_integer_and_a_float_order_and_compare_by_value() {
    assert_eq!(
        texts(&run("UNWIND [2, 1.5, -0.5, 1] AS n RETURN n ORDER BY n")),
        vec!["-0.5", "1", "1.5", "2"]
    );
    assert_eq!(texts(&run("UNWIND [1] AS n RETURN n = 1.0")), vec!["true"]);
    assert_eq!(run("UNWIND [1, 1.0] AS n RETURN DISTINCT n").row_count(), 1);
}

#[test]
fn a_large_integer_is_compared_exactly_rather_than_through_a_float() {
    let result = run(&format!(
        "UNWIND [{}, {}] AS n RETURN DISTINCT n",
        i64::MAX,
        i64::MAX - 1
    ));
    assert_eq!(result.row_count(), 2);
    assert_eq!(
        texts(&run(&format!(
            "UNWIND [{}] AS n RETURN n < 9223372036854775808.0",
            i64::MAX
        ))),
        vec!["true"]
    );
}

#[test]
fn the_cross_kind_order_is_the_one_the_contract_fixes() {
    let result = run("UNWIND [[1], \"text\", 7, true, null] AS n RETURN n ORDER BY n");
    assert_eq!(texts(&result), vec!["null", "true", "7", "text", "[1]"]);
}

#[test]
fn without_order_by_the_row_set_is_stable_even_though_the_order_is_undefined() {
    let first: std::collections::BTreeSet<String> = texts(&run("MATCH (n) RETURN n.name")).into_iter().collect();
    let second: std::collections::BTreeSet<String> = texts(&run("MATCH (n) RETURN n.name")).into_iter().collect();
    assert_eq!(first, second);
    assert_eq!(first.len(), 4);
}

#[test]
fn unwind_turns_a_list_into_rows() {
    assert_eq!(
        texts(&run(
            "UNWIND [1, 2, 3] AS number RETURN number ORDER BY number"
        )),
        vec!["1", "2", "3"]
    );
}

#[test]
fn with_opens_a_new_scope() {
    assert_eq!(
        texts(&run(
            "MATCH (n:Service) WITH n.name AS name WHERE name = \"beta\" RETURN name"
        )),
        vec!["beta"]
    );
    assert_eq!(
        refuse("MATCH (n:Service) WITH n.name AS name RETURN n.name").code,
        DiagnosticCode::CypherSemanticError
    );
}

#[test]
fn union_concatenates_and_union_distinct_deduplicates() {
    let all = run(
        "MATCH (n:Service) RETURN n.name AS name UNION ALL MATCH (n:Service) RETURN n.name AS name",
    );
    assert_eq!(all.row_count(), 4);
    let distinct = run(
        "MATCH (n:Service) RETURN n.name AS name UNION MATCH (n:Service) RETURN n.name AS name",
    );
    assert_eq!(distinct.row_count(), 2);
}

#[test]
fn parameters_are_substituted_and_a_missing_one_is_an_error() {
    let mut parameters = Parameters::new();
    parameters.insert("wanted".to_owned(), QueryValue::Text("beta".to_owned()));
    assert_eq!(
        texts(&run_with(
            "MATCH (n) WHERE n.name = $wanted RETURN n.name",
            parameters
        )),
        vec!["beta"]
    );

    let error = refuse("MATCH (n) WHERE n.name = $absent RETURN n.name");
    assert_eq!(error.code, DiagnosticCode::CypherSemanticError);
    assert!(error.message.contains("$absent"), "{}", error.message);
}

#[test]
fn an_unbound_variable_is_an_error_rather_than_an_empty_result() {
    let error = refuse("MATCH (n) RETURN missing.name");
    assert_eq!(error.code, DiagnosticCode::CypherSemanticError);
    assert!(error.message.contains("not bound"), "{}", error.message);
}

#[test]
fn scalar_functions_evaluate_and_an_unknown_one_is_refused() {
    assert_eq!(
        texts(&run(
            "MATCH (n:Database) RETURN toUpper(n.name) ORDER BY n.name"
        )),
        vec!["LONELY", "PRIMARY"]
    );
    assert_eq!(
        texts(&run(
            "MATCH (n:Service) WHERE n.name = \"alpha\" RETURN size(labels(n))"
        )),
        vec!["1"]
    );
    assert_eq!(
        refuse("MATCH (n) RETURN nonesuch(n)").code,
        DiagnosticCode::CypherSemanticError
    );
}

#[test]
fn arithmetic_overflow_and_division_by_zero_yield_null_rather_than_panicking() {
    assert_eq!(texts(&run("UNWIND [1] AS x RETURN x / 0")), vec!["null"]);
    assert_eq!(texts(&run("UNWIND [1] AS x RETURN x + 1")), vec!["2"]);
    assert_eq!(
        texts(&run("UNWIND [\"a\"] AS x RETURN x + \"b\"")),
        vec!["ab"]
    );
}

#[test]
fn a_named_path_binds_its_nodes() {
    let result = run("MATCH p = (a:Service)-[:CALLS]->(b) RETURN p ORDER BY a.name");
    assert_eq!(result.row_count(), 2);
    assert!(matches!(result.rows[0][0], QueryValue::Path { .. }));
}

#[test]
fn a_cycle_does_not_make_a_bounded_walk_diverge() {
    let mut cyclic = graph();
    cyclic.edges.push(edge(0x3, 0xC, 0xA, "CALLS"));
    assert!(
        run_on(
            &mut cyclic,
            "MATCH (a:Service)-[:CALLS*1..10]->(b) RETURN b.name"
        )
        .row_count()
            > 0
    );
}

#[test]
fn an_external_endpoint_is_skipped_rather_than_treated_as_local() {
    let mut federated = graph();
    federated.edges.push(Edge {
        id: LocalEdgeId::from_bytes([0x9; 16]),
        source: NodeReference::Local(LocalNodeId::from_bytes([0xA; 16])),
        target: NodeReference::External(ScopedNodeId {
            source: CanonicalSourceLocator::new("./packages/shared").unwrap(),
            local: LocalNodeId::from_bytes([0xE; 16]),
        }),
        relation: RelationName::new("CALLS").unwrap(),
        properties: Vec::new(),
        contributions: vec![contribution()],
    });
    assert_eq!(
        run_on(
            &mut federated,
            "MATCH (a:Service)-[:CALLS]->(b) RETURN b.name"
        )
        .row_count(),
        2
    );
}


#[test]
fn an_inline_map_filters_a_reading_pattern() {
    assert_eq!(
        texts(&run("MATCH (n {name: \"beta\"}) RETURN n.name")),
        vec!["beta"]
    );
    assert_eq!(
        run("MATCH (n:Service {name: \"primary\"}) RETURN n.name").row_count(),
        0
    );
    assert_eq!(
        run("MATCH (n:Database {name: \"primary\", size: 4}) RETURN n.name").row_count(),
        0
    );
    assert_eq!(
        run("MATCH (n:Database {name: \"primary\", size: 10}) RETURN n.name").row_count(),
        1
    );
}

#[test]
fn a_relationship_map_filters_too() {
    let mut annotated = graph();
    annotated.edges[0].properties.push((
        PropertyKey::new("kind").unwrap(),
        PropertyValue::from("direct"),
    ));
    assert_eq!(
        run_on(
            &mut annotated,
            "MATCH ()-[r:CALLS {kind: \"direct\"}]->(b) RETURN b.name"
        )
        .row_count(),
        1
    );
}

#[test]
fn a_null_map_value_is_refused_rather_than_matching_nothing() {
    let error = refuse("MATCH (n {name: null}) RETURN n");
    assert_eq!(error.code, DiagnosticCode::CypherSemanticError);
    assert!(error.message.contains("null"), "{}", error.message);
}


#[test]
fn an_aggregate_without_a_grouping_key_returns_exactly_one_row() {
    let result = run("MATCH (n) RETURN count(n) AS total");
    assert_eq!(result.columns, vec!["total"]);
    assert_eq!(texts(&result), vec!["4"]);
}

#[test]
fn count_over_an_empty_graph_answers_zero_rather_than_answering_nothing() {
    let mut empty = Graph::default();
    assert_eq!(
        texts(&run_on(&mut empty, "MATCH (n) RETURN count(n) AS total")),
        vec!["0"]
    );
    assert_eq!(
        texts(&run_on(&mut empty, "MATCH (n) RETURN count(*) AS rows")),
        vec!["0"]
    );
    assert_eq!(
        texts(&run_on(
            &mut empty,
            "MATCH (n) RETURN collect(n.name) AS names"
        )),
        vec!["[]"]
    );
    assert_eq!(
        texts(&run_on(&mut empty, "MATCH (n) RETURN sum(n.size) AS total")),
        vec!["0"]
    );
    assert_eq!(
        texts(&run_on(&mut empty, "MATCH (n) RETURN avg(n.size) AS mean")),
        vec!["null"]
    );
    assert_eq!(
        texts(&run_on(&mut empty, "MATCH (n) RETURN min(n.size) AS least")),
        vec!["null"]
    );
}

#[test]
fn a_grouping_key_produces_no_row_over_no_input() {
    let mut empty = Graph::default();
    assert_eq!(
        run_on(
            &mut empty,
            "MATCH (n) RETURN n.name AS name, count(n) AS total"
        )
        .row_count(),
        0
    );
}

#[test]
fn the_non_aggregate_items_are_the_grouping_key() {
    let result = run("MATCH (n) RETURN labels(n) AS labels, count(n) AS total ORDER BY labels");
    assert_eq!(texts(&result), vec!["[Database]|2", "[Service]|2"]);
}

#[test]
fn count_of_a_value_ignores_null_and_count_star_does_not() {
    assert_eq!(
        texts(&run(
            "MATCH (n) RETURN count(n.size) AS sized, count(*) AS rows"
        )),
        vec!["2|4"]
    );
}

#[test]
fn every_numeric_aggregate_agrees_with_the_values_it_summed() {
    assert_eq!(
        texts(&run(
            "MATCH (n:Database) RETURN sum(n.size) AS total, min(n.size) AS least, \
             max(n.size) AS most, avg(n.size) AS mean"
        )),
        vec!["14|4|10|7"]
    );
}

#[test]
fn a_sum_of_integers_stays_an_integer_and_a_float_makes_it_a_float() {
    let mut mixed = Graph::default();
    mixed.nodes.push(node(
        0x1,
        &["Measure"],
        &[("value", PropertyValue::Integer(2))],
    ));
    assert!(matches!(
        run_on(&mut mixed, "MATCH (n) RETURN sum(n.value) AS total").rows[0][0],
        QueryValue::Integer(2)
    ));

    mixed.nodes.push(node(
        0x2,
        &["Measure"],
        &[("value", PropertyValue::Float(FiniteF64::new(0.5_f64.to_bits()).unwrap()))],
    ));
    assert!(matches!(
        run_on(&mut mixed, "MATCH (n) RETURN sum(n.value) AS total").rows[0][0],
        QueryValue::Float(_)
    ));
}

#[test]
fn a_non_numeric_value_in_a_numeric_aggregate_is_refused_rather_than_skipped() {
    let error = refuse("MATCH (n) RETURN sum(n.name) AS total");
    assert_eq!(error.code, DiagnosticCode::CypherSemanticError);
    assert!(error.message.contains("numbers"), "{}", error.message);
}

#[test]
fn collect_gathers_in_row_order_and_skips_null() {
    let result = run("MATCH (n) WITH n ORDER BY n.name RETURN collect(n.name) AS names");
    assert_eq!(texts(&result), vec!["[alpha, beta, lonely, primary]"]);

    let result = run("MATCH (n) RETURN size(collect(n.size)) AS sized");
    assert_eq!(texts(&result), vec!["2"]);
}

#[test]
fn an_aggregate_may_be_part_of_a_larger_expression() {
    assert_eq!(
        texts(&run("MATCH (n) RETURN count(n) + 1 AS more")),
        vec!["5"]
    );
}

#[test]
fn filtering_on_an_aggregate_goes_through_with() {
    assert_eq!(
        texts(&run(
            "MATCH (n)-[:CALLS]->(m) WITH n, count(m) AS calls WHERE calls > 0 \
             RETURN n.name AS name, calls ORDER BY name"
        )),
        vec!["alpha|1", "beta|1"]
    );
    assert_eq!(
        run("MATCH (n)-[:CALLS]->(m) WITH n, count(m) AS calls WHERE calls > 5 RETURN calls")
            .row_count(),
        0
    );
}

#[test]
fn after_grouping_order_by_names_a_projected_column() {
    assert_eq!(
        texts(&run(
            "MATCH (n) RETURN labels(n) AS labels, count(n) AS total ORDER BY total DESC, labels"
        )),
        vec!["[Database]|2", "[Service]|2"]
    );
    assert_eq!(
        refuse("MATCH (n) RETURN count(n) AS total ORDER BY n.name").code,
        DiagnosticCode::CypherSemanticError
    );
}


#[test]
fn a_bare_call_produces_the_procedure_columns() {
    let result = run("CALL nostdb.build_status()");
    assert_eq!(
        result.columns,
        vec!["database_generation", "nodes", "edges", "links"]
    );
    assert_eq!(texts(&result), vec!["null|4|2|1"]);
}

#[test]
fn a_call_with_yield_keeps_and_renames_columns() {
    let result = run("CALL nostdb.links() YIELD source AS locator RETURN locator");
    assert_eq!(result.columns, vec!["locator"]);
    assert_eq!(texts(&result), vec!["./packages/child"]);
}

#[test]
fn a_call_runs_once_per_incoming_row() {
    let mut with_evidence = graph();
    with_evidence.nodes[0].contributions[0]
        .evidence
        .push(sample_evidence());
    let result = run_on(
        &mut with_evidence,
        "MATCH (n:Service) CALL nostdb.evidence(n) YIELD path RETURN n.name, path",
    );
    assert_eq!(texts(&result), vec!["alpha|src/auth.rs"]);
}

#[test]
fn yielding_a_column_a_procedure_does_not_produce_is_refused() {
    let error = refuse("CALL nostdb.links() YIELD invented RETURN invented");
    assert_eq!(error.code, DiagnosticCode::CypherSemanticError);
    assert!(error.message.contains("yields no column"), "{}", error.message);
}

#[test]
fn a_capability_gated_procedure_is_unsupported_rather_than_answered() {
    let error = refuse("CALL nostdb.refresh_links() YIELD source RETURN source");
    assert_eq!(error.code, DiagnosticCode::CypherUnsupported);
    assert!(error.message.contains("provider"), "{}", error.message);
}

#[test]
fn an_unknown_procedure_is_a_semantic_error() {
    assert_eq!(
        refuse("CALL nostdb.invented() YIELD x RETURN x").code,
        DiagnosticCode::CypherSemanticError
    );
    assert_eq!(
        refuse("CALL other.thing() YIELD x RETURN x").code,
        DiagnosticCode::CypherSemanticError
    );
}

#[test]
fn the_nostdb_functions_report_the_context_and_the_stored_evidence() {
    let mut with_evidence = graph();
    with_evidence.nodes[0].contributions[0]
        .evidence
        .push(sample_evidence());
    let query = parse(
        "MATCH (n:Service {name: \"alpha\"}) RETURN nostdb.source(n) AS source, \
         nostdb.source_location(n) AS path, nostdb.source_revision(n) AS revision, \
         nostdb.link_alias(n) AS alias, nostdb.is_available(n) AS available",
    )
    .unwrap();
    let context = DatabaseContext {
        generation: Some(Generation::from_raw(9)),
        source: Some(CanonicalSourceLocator::new("./root.nostdb").unwrap()),
    };
    let result = execute(&query, &mut with_evidence, &Parameters::new(), &context).unwrap();
    assert_eq!(
        texts(&result),
        vec!["./root.nostdb|src/auth.rs|a1b2c3|null|true"]
    );
}

fn sample_evidence() -> Evidence {
    Evidence {
        source: CanonicalSourceLocator::new("./packages/child").unwrap(),
        resolved_revision: Some(NonEmptyText::new("a1b2c3").unwrap()),
        path: Some(NonEmptyText::new("src/auth.rs").unwrap()),
        content_digest: ContentDigest::new(
            "sha256:abcdef0123456789abcdef0123456789",
        )
        .unwrap(),
        range: None,
        producer: NonEmptyText::new("rust-structural").unwrap(),
        producer_version: NonEmptyText::new("0.1.0").unwrap(),
        method: EvidenceMethod::Deterministic,
        confidence: Confidence::Extracted,
    }
}


#[test]
fn create_adds_a_node_with_its_labels_and_properties() {
    let mut target = Graph::default();
    let result = run_on(
        &mut target,
        "CREATE (n:Function:Reviewed {name: \"login\", lines: 12}) RETURN n.name",
    );
    assert_eq!(result.writes.nodes_created, 1);
    assert_eq!(texts(&result), vec!["login"]);

    assert_eq!(target.nodes.len(), 1);
    assert_eq!(target.nodes[0].labels.len(), 2);
    assert_eq!(target.nodes[0].properties.len(), 2);
    assert_eq!(target.nodes[0].violations(), Vec::new());
}

#[test]
fn a_created_record_is_user_owned_and_needs_no_evidence() {
    let mut target = Graph::default();
    run_on(&mut target, "CREATE (n:Function {name: \"login\"})");
    let contribution = &target.nodes[0].contributions[0];
    assert_eq!(contribution.owner, Owner::user());
    assert_eq!(contribution.source_unit, SourceUnitId::query());
    assert!(contribution.evidence.is_empty());
    assert!(!contribution.owner.requires_evidence());
}

#[test]
fn create_reuses_a_bound_endpoint_rather_than_duplicating_it() {
    let mut target = graph();
    let result = run_on(
        &mut target,
        "MATCH (a:Service {name: \"alpha\"}), (d:Database {name: \"lonely\"}) \
         CREATE (a)-[:USES]->(d)",
    );
    assert_eq!(result.writes.edges_created, 1);
    assert_eq!(result.writes.nodes_created, 0);
    assert_eq!(target.nodes.len(), 4);
    assert_eq!(target.edges.len(), 3);
}

#[test]
fn create_makes_a_whole_path_at_once() {
    let mut target = Graph::default();
    let result = run_on(
        &mut target,
        "CREATE (a:Service {name: \"alpha\"})-[:CALLS]->(b:Database {name: \"primary\"})",
    );
    assert_eq!(result.writes.nodes_created, 2);
    assert_eq!(result.writes.edges_created, 1);
    assert_eq!(target.edges[0].violations(), Vec::new());
    assert!(!target.edges[0].crosses_sources());
}

#[test]
fn a_created_node_must_carry_a_label() {
    let mut target = Graph::default();
    let error = refuse_on(&mut target, "CREATE (n) RETURN n");
    assert_eq!(error.code, DiagnosticCode::CypherSemanticError);
    assert!(error.message.contains("label"), "{}", error.message);
    assert!(target.nodes.is_empty());
}

#[test]
fn the_writer_refuses_a_relationship_no_edge_could_represent() {

    let labelled = |label: &str| NodePattern {
        variable: None,
        labels: vec![label.to_owned()],
        properties: Vec::new(),
    };
    let step = |direction: Direction, types: Vec<String>| RelationshipPattern {
        variable: None,
        types,
        direction,
        length: None,
        properties: Vec::new(),
    };

    for (relationship, expected) in [
        (step(Direction::Either, vec!["USES".to_owned()]), "directed"),
        (step(Direction::Outgoing, Vec::new()), "one relation type"),
    ] {
        let pattern = Pattern {
            path_variable: None,
            start: labelled("Service"),
            steps: vec![(relationship, labelled("Database"))],
        };
        let mut target = Graph::default();
        let mut minter = Minter::sequential(1);
        let mut summary = WriteSummary::default();
        let mut writer = Writer::new(&mut target, &mut minter, &mut summary);
        let error = writer
            .create(
                &pattern,
                &mut Bindings::new(),
                &PatternValues {
                    start: Vec::new(),
                    steps: vec![(Vec::new(), Vec::new())],
                },
                SourceRange::origin(),
            )
            .expect_err("must be refused");
        assert_eq!(error.code, DiagnosticCode::CypherSemanticError);
        assert!(error.message.contains(expected), "{}", error.message);
    }
}

#[test]
fn a_null_property_in_a_created_record_is_refused() {
    let mut target = Graph::default();
    let error = refuse_on(&mut target, "CREATE (n:Function {name: null})");
    assert_eq!(error.code, DiagnosticCode::CypherSemanticError);
    assert!(error.message.contains("null"), "{}", error.message);
    assert!(target.nodes.is_empty());
}

#[test]
fn merge_creates_once_and_then_matches() {
    let mut target = Graph::default();
    let first = run_on(
        &mut target,
        "MERGE (n:Service {name: \"alpha\"}) RETURN n.name",
    );
    assert_eq!(first.writes.nodes_created, 1);

    let second = run_on(
        &mut target,
        "MERGE (n:Service {name: \"alpha\"}) RETURN n.name",
    );
    assert_eq!(second.writes.nodes_created, 0);
    assert_eq!(texts(&second), vec!["alpha"]);
    assert_eq!(target.nodes.len(), 1);
}

#[test]
fn merge_over_repeated_rows_creates_one_record() {
    let mut target = Graph::default();
    let result = run_on(
        &mut target,
        "UNWIND [\"alpha\", \"alpha\", \"beta\"] AS name MERGE (n:Service {name: name})",
    );
    assert_eq!(result.writes.nodes_created, 2);
    assert_eq!(target.nodes.len(), 2);
}

#[test]
fn set_assigns_a_property_and_overwrites_an_existing_one() {
    let mut target = graph();
    let result = run_on(&mut target, "MATCH (n:Service) SET n.reviewed = true");
    assert_eq!(result.writes.properties_set, 2);
    assert!(result.columns.is_empty());
    assert!(result.rows.is_empty());

    let result = run_on(
        &mut target,
        "MATCH (n:Database {name: \"primary\"}) SET n.size = 11 RETURN n.size",
    );
    assert_eq!(texts(&result), vec!["11"]);
    let primary = target
        .nodes
        .iter()
        .find(|node| node.id == LocalNodeId::from_bytes([0xC; 16]))
        .unwrap();
    assert_eq!(
        primary
            .properties
            .iter()
            .filter(|(key, _)| key.as_str() == "size")
            .count(),
        1
    );
}

#[test]
fn assigning_null_removes_the_property() {
    let mut target = graph();
    let result = run_on(&mut target, "MATCH (n:Database) SET n.size = null");
    assert_eq!(result.writes.properties_removed, 2);
    assert!(target.nodes.iter().all(|node| {
        node.properties
            .iter()
            .all(|(key, _)| key.as_str() != "size")
    }));
}

#[test]
fn set_and_remove_handle_labels_and_keep_a_node_storable() {
    let mut target = graph();
    let result = run_on(&mut target, "MATCH (n:Service) SET n:Reviewed");
    assert_eq!(result.writes.labels_added, 2);

    let result = run_on(&mut target, "MATCH (n:Reviewed) REMOVE n:Reviewed");
    assert_eq!(result.writes.labels_removed, 2);

    let error = refuse_on(&mut target, "MATCH (n:Service) REMOVE n:Service");
    assert_eq!(error.code, DiagnosticCode::CypherSemanticError);
    assert!(error.message.contains("last label"), "{}", error.message);
}

#[test]
fn a_user_write_preserves_an_analyzer_contribution() {
    let mut target = Graph::default();
    let mut analyzed = node(
        0x1,
        &["Function"],
        &[("name", PropertyValue::from("login"))],
    );
    analyzed.contributions = vec![Contribution {
        owner: Owner::new(NonEmptyText::new("rust-structural").unwrap()),
        source_unit: SourceUnitId::from_bytes([7; 16]),
        evidence: vec![sample_evidence()],
    }];
    target.nodes.push(analyzed);

    run_on(&mut target, "MATCH (n:Function) SET n.reviewed = true");
    let contributions = &target.nodes[0].contributions;
    assert_eq!(contributions.len(), 2);
    assert!(contributions[0].owner.kind() == OwnerKind::Analyzer);
    assert_eq!(contributions[1].owner, Owner::user());

    run_on(&mut target, "MATCH (n:Function) SET n.seen = true");
    assert_eq!(target.nodes[0].contributions.len(), 2);
}

#[test]
fn remove_takes_a_property_away() {
    let mut target = graph();
    let result = run_on(&mut target, "MATCH (n:Database) REMOVE n.size");
    assert_eq!(result.writes.properties_removed, 2);
    let result = run_on(&mut target, "MATCH (n:Database) REMOVE n.size");
    assert_eq!(result.writes.properties_removed, 0);
}

#[test]
fn delete_removes_a_relationship_and_leaves_its_endpoints() {
    let mut target = graph();
    let result = run_on(
        &mut target,
        "MATCH (:Service)-[r:CALLS]->(:Database) DELETE r",
    );
    assert_eq!(result.writes.edges_deleted, 1);
    assert_eq!(target.nodes.len(), 4);
    assert_eq!(target.edges.len(), 1);
}

#[test]
fn deleting_a_node_with_a_relationship_needs_detach() {
    let mut target = graph();
    let error = refuse_on(&mut target, "MATCH (n:Service {name: \"alpha\"}) DELETE n");
    assert_eq!(error.code, DiagnosticCode::CypherSemanticError);
    assert!(error.message.contains("DETACH DELETE"), "{}", error.message);
    assert_eq!(target.nodes.len(), 4);

    let result = run_on(
        &mut target,
        "MATCH (n:Service {name: \"alpha\"}) DETACH DELETE n",
    );
    assert_eq!(result.writes.nodes_deleted, 1);
    assert_eq!(result.writes.edges_deleted, 1);
    assert_eq!(target.nodes.len(), 3);
    assert_eq!(target.edges.len(), 1);
}

#[test]
fn deleting_an_isolated_node_needs_no_detach() {
    let mut target = graph();
    let result = run_on(
        &mut target,
        "MATCH (n:Database {name: \"lonely\"}) DELETE n",
    );
    assert_eq!(result.writes.nodes_deleted, 1);
}

#[test]
fn detach_delete_removes_an_edge_pointing_into_a_linked_source() {
    let mut federated = graph();
    federated.edges.push(Edge {
        id: LocalEdgeId::from_bytes([0x9; 16]),
        source: NodeReference::Local(LocalNodeId::from_bytes([0xD; 16])),
        target: NodeReference::External(ScopedNodeId {
            source: CanonicalSourceLocator::new("./packages/shared").unwrap(),
            local: LocalNodeId::from_bytes([0xE; 16]),
        }),
        relation: RelationName::new("CALLS").unwrap(),
        properties: Vec::new(),
        contributions: vec![contribution()],
    });
    let result = run_on(
        &mut federated,
        "MATCH (n:Database {name: \"lonely\"}) DETACH DELETE n",
    );
    assert_eq!(result.writes.nodes_deleted, 1);
    assert_eq!(result.writes.edges_deleted, 1);
    assert!(federated.edges.iter().all(|edge| !edge.crosses_sources()));
}

#[test]
fn deleting_the_same_record_twice_in_one_query_is_harmless() {
    let mut target = graph();
    let result = run_on(
        &mut target,
        "MATCH (n:Database {name: \"lonely\"}) DELETE n, n",
    );
    assert_eq!(result.writes.nodes_deleted, 1);
}

#[test]
fn deleting_something_that_is_not_a_record_is_refused() {
    let mut target = graph();
    let error = refuse_on(&mut target, "MATCH (n) DELETE n.name");
    assert_eq!(error.code, DiagnosticCode::CypherSemanticError);
    assert!(error.message.contains("node or a relationship"), "{}", error.message);
}

#[test]
fn a_later_clause_sees_what_an_earlier_one_wrote() {
    let mut target = Graph::default();
    let result = run_on(
        &mut target,
        "CREATE (n:Function {name: \"login\"}) WITH n MATCH (m:Function) RETURN m.name",
    );
    assert_eq!(texts(&result), vec!["login"]);
}

#[test]
fn one_rows_write_does_not_change_what_another_row_assigns() {
    let mut target = graph();
    run_on(
        &mut target,
        "MATCH (a:Database {name: \"primary\"}), (b:Database {name: \"lonely\"}) \
         SET a.size = b.size, b.size = a.size",
    );
    let sizes: std::collections::BTreeSet<String> = target
        .nodes
        .iter()
        .filter(|node| node.labels.iter().any(|label| label.as_str() == "Database"))
        .flat_map(|node| {
            node.properties
                .iter()
                .filter(|(key, _)| key.as_str() == "size")
                .map(|(_, value)| QueryValue::from_property(value).to_string())
        })
        .collect();
    assert_eq!(sizes.len(), 2);
}

#[test]
fn minted_identifiers_are_distinct_version_7_uuids() {
    let mut target = Graph::default();
    let query = parse("CREATE (a:A {n: 1}), (b:B {n: 2})").unwrap();
    let context = DatabaseContext {
        generation: Some(Generation::from_raw(4)),
        source: None,
    };
    execute(&query, &mut target, &Parameters::new(), &context).unwrap();

    assert_ne!(target.nodes[0].id, target.nodes[1].id);
    for node in &target.nodes {
        let bytes = node.id.to_bytes();
        assert_eq!(bytes[6] >> 4, 0x7, "version nibble must be 7");
        assert_eq!(bytes[8] >> 6, 0b10, "variant bits must be 0b10");
    }
}

#[test]
fn minting_skips_an_identifier_a_stated_record_already_uses() {
    let mut target = Graph::default();
    let mut probe = Minter::sequential(5);
    let occupied = probe.node();
    target.nodes.push(node(0x0, &["Existing"], &[]));
    target.nodes[0].id = occupied;

    let mut minter = Minter::sequential(5);
    let mut summary = WriteSummary::default();
    let mut writer = Writer::new(&mut target, &mut minter, &mut summary);
    writer
        .create(
            &Pattern {
                path_variable: None,
                start: NodePattern {
                    variable: None,
                    labels: vec!["Created".to_owned()],
                    properties: Vec::new(),
                },
                steps: Vec::new(),
            },
            &mut Bindings::new(),
            &PatternValues {
                start: Vec::new(),
                steps: Vec::new(),
            },
            SourceRange::origin(),
        )
        .unwrap();

    assert_eq!(target.nodes.len(), 2);
    assert_ne!(target.nodes[1].id, occupied);
}

#[test]
fn a_write_that_changes_nothing_leaves_the_graph_exactly_as_it_was() {
    let mut target = graph();
    let before = target.clone();

    for source in [
        "MATCH (n:Service) SET n.absent = null",
        "MATCH (n:Service) REMOVE n.absent",
        "MATCH (n:Service) SET n:Service",
    ] {
        let result = run_on(&mut target, source);
        assert!(result.writes.is_empty(), "{source} reported a change");
        assert_eq!(target, before, "{source} changed the graph");
    }
}

#[test]
fn a_write_naming_an_unmatched_optional_row_does_nothing_rather_than_failing() {
    let mut target = graph();
    let result = run_on(
        &mut target,
        "MATCH (d:Database) OPTIONAL MATCH (d)-[:CALLS]->(x) SET x.seen = true",
    );
    assert!(result.writes.is_empty());

    let result = run_on(
        &mut target,
        "MATCH (d:Database) OPTIONAL MATCH (d)-[:CALLS]->(x) REMOVE x.seen",
    );
    assert!(result.writes.is_empty());

    let result = run_on(
        &mut target,
        "MATCH (d:Database) OPTIONAL MATCH (d)-[:CALLS]->(x) DELETE x",
    );
    assert!(result.writes.is_empty());
}

#[test]
fn a_write_summary_reports_nothing_for_a_read() {
    assert!(run("MATCH (n) RETURN n.name").writes.is_empty());
    let mut target = Graph::default();
    assert!(!run_on(&mut target, "CREATE (n:A {n: 1})").writes.is_empty());
}

fn locator(value: &str) -> CanonicalSourceLocator {
    CanonicalSourceLocator::new(value).unwrap()
}

fn linked_graph(marker: u8, label: &str, name: &str) -> Graph {
    Graph {
        nodes: vec![node(
            marker,
            &[label],
            &[("name", PropertyValue::from(name))],
        )],
        edges: Vec::new(),
        links: Vec::new(),
        schemas: Vec::new(),
    }
}

fn run_over(
    source: &str,
    root: &mut Graph,
    linked: &[(CanonicalSourceLocator, Graph)],
) -> QueryResult {
    let held: Vec<LinkedSource<'_>> = linked
        .iter()
        .map(|(locator, graph)| LinkedSource { locator, graph })
        .collect();
    let query = parse(source).expect("must parse");
    execute_federated(
        &query,
        root,
        &held,
        &Parameters::new(),
        &DatabaseContext {
            generation: Some(Generation::from_raw(1)),
            source: Some(locator("./root.nostdb")),
        },
    )
    .expect("must execute")
}

#[test]
fn a_read_sees_the_root_and_every_linked_source() {
    let mut root = linked_graph(0x1, "Function", "root-node");
    let linked = vec![
        (locator("./a"), linked_graph(0x2, "Function", "a-node")),
        (locator("./b"), linked_graph(0x3, "Function", "b-node")),
    ];
    let result = run_over(
        "MATCH (n:Function) RETURN n.name ORDER BY n.name",
        &mut root,
        &linked,
    );
    let names: Vec<String> = result.rows.iter().map(|row| row[0].to_string()).collect();
    assert_eq!(names, ["a-node", "b-node", "root-node"]);
}

#[test]
fn two_sources_carrying_one_identifier_produce_two_rows() {
    let mut root = linked_graph(0x7, "Function", "original");
    let linked = vec![(locator("./copy"), linked_graph(0x7, "Function", "copy"))];
    let result = run_over(
        "MATCH (n) RETURN n.name ORDER BY n.name",
        &mut root,
        &linked,
    );
    assert_eq!(result.rows.len(), 2, "{:?}", result.rows);

    let distinct = run_over("MATCH (n) RETURN DISTINCT n", &mut root, &linked);
    assert_eq!(distinct.rows.len(), 2, "{:?}", distinct.rows);
}

#[test]
fn nostdb_source_reports_the_locator_a_record_came_through() {
    let mut root = linked_graph(0x1, "Function", "root-node");
    let linked = vec![(
        locator("./child"),
        linked_graph(0x2, "Function", "child-node"),
    )];
    let result = run_over(
        "MATCH (n) RETURN n.name, nostdb.source(n) ORDER BY n.name",
        &mut root,
        &linked,
    );
    assert_eq!(result.rows[0][0].to_string(), "child-node");
    assert_eq!(result.rows[0][1].to_string(), "./child");
    assert_eq!(result.rows[1][0].to_string(), "root-node");
    assert_eq!(result.rows[1][1].to_string(), "./root.nostdb");
}

#[test]
fn a_write_naming_a_linked_record_is_refused_and_changes_nothing() {
    let mut root = linked_graph(0x1, "Function", "root-node");
    let linked = [(locator("./child"), linked_graph(0x2, "Other", "child-node"))];
    let held: Vec<LinkedSource<'_>> = linked
        .iter()
        .map(|(locator, graph)| LinkedSource { locator, graph })
        .collect();
    let query = parse("MATCH (n:Other) SET n.name = \"changed\"").expect("must parse");
    let error = execute_federated(
        &query,
        &mut root,
        &held,
        &Parameters::new(),
        &DatabaseContext {
            generation: Some(Generation::from_raw(1)),
            source: None,
        },
    )
    .expect_err("a linked write is refused");
    assert_eq!(error.code, DiagnosticCode::LinkedDatabaseReadOnly);
    assert_eq!(
        linked[0].1.nodes[0].properties[0].1,
        PropertyValue::from("child-node")
    );
}

#[test]
fn a_write_naming_a_root_record_still_works_alongside_a_link() {
    let mut root = linked_graph(0x1, "Function", "root-node");
    let linked = [(locator("./child"), linked_graph(0x2, "Other", "child-node"))];
    let result = run_over(
        "MATCH (n:Function) SET n.name = \"renamed\" RETURN n.name",
        &mut root,
        &linked,
    );
    assert_eq!(result.rows[0][0].to_string(), "renamed");
    assert_eq!(result.writes.properties_set, 1);
}

#[test]
fn an_edge_naming_a_linked_node_traverses_into_it() {
    let child_id = LocalNodeId::from_bytes([0x2; 16]);
    let mut root = Graph {
        nodes: vec![node(
            0x1,
            &["Function"],
            &[("name", PropertyValue::from("caller"))],
        )],
        edges: vec![Edge {
            id: LocalEdgeId::from_bytes([0x9; 16]),
            source: NodeReference::Local(LocalNodeId::from_bytes([0x1; 16])),
            target: NodeReference::External(ScopedNodeId {
                source: locator("./child"),
                local: child_id,
            }),
            relation: RelationName::new("CALLS").unwrap(),
            properties: Vec::new(),
            contributions: Vec::new(),
        }],
        links: vec![Link::new(locator("./child"))],
        schemas: Vec::new(),
    };
    let linked = vec![(locator("./child"), linked_graph(0x2, "Other", "callee"))];
    let result = run_over("MATCH (a)-[:CALLS]->(b) RETURN b.name", &mut root, &linked);
    assert_eq!(result.rows.len(), 1, "{:?}", result.rows);
    assert_eq!(result.rows[0][0].to_string(), "callee");
}

#[test]
fn an_edge_naming_a_source_that_was_not_opened_leads_nowhere() {
    let mut root = Graph {
        nodes: vec![node(0x1, &["Function"], &[])],
        edges: vec![Edge {
            id: LocalEdgeId::from_bytes([0x9; 16]),
            source: NodeReference::Local(LocalNodeId::from_bytes([0x1; 16])),
            target: NodeReference::External(ScopedNodeId {
                source: locator("./absent"),
                local: LocalNodeId::from_bytes([0x2; 16]),
            }),
            relation: RelationName::new("CALLS").unwrap(),
            properties: Vec::new(),
            contributions: Vec::new(),
        }],
        links: vec![Link::new(locator("./absent"))],
        schemas: Vec::new(),
    };
    let result = run_over("MATCH (a)-[:CALLS]->(b) RETURN b", &mut root, &[]);
    assert!(result.rows.is_empty(), "{:?}", result.rows);
}

#[test]
fn with_no_links_a_query_behaves_exactly_as_before() {
    let mut root = linked_graph(0x1, "Function", "only");
    let result = run_over("MATCH (n) RETURN n.name", &mut root, &[]);
    assert_eq!(result.rows.len(), 1);
    assert_eq!(result.rows[0][0].to_string(), "only");
}

#[derive(Clone, Debug, PartialEq)]
enum Token {
    Word(String),
    Number(String),
    Text(String),
    Sign(&'static str),
    End,
}

struct Reader<'s> {
    source: &'s str,
    tokens: Vec<(Token, usize, usize)>,
    at: usize,
}

const SIGNS: [&str; 29] = [
    "..", "<>", "<=", ">=", "<-", "->", "(", ")", "[", "]", "{", "}", ",", ":", ".", "=", "<", ">",
    "+", "-", "*", "/", "%", "|", "$", ";", "!", "?", "&",
];

fn tokens_of(source: &str) -> Result<Vec<(Token, usize, usize)>, String> {
    let bytes = source.as_bytes();
    let mut found = Vec::new();
    let mut at = 0;
    while at < bytes.len() {
        let byte = bytes[at];
        let start = at;
        if byte.is_ascii_whitespace() {
            at += 1;
        } else if byte.is_ascii_alphabetic() || byte == b'_' {
            while at < bytes.len() && (bytes[at].is_ascii_alphanumeric() || bytes[at] == b'_') {
                at += 1;
            }
            found.push((Token::Word(source[start..at].to_owned()), start, at));
        } else if byte.is_ascii_digit() {
            while at < bytes.len() && bytes[at].is_ascii_digit() {
                at += 1;
            }
            if at + 1 < bytes.len() && bytes[at] == b'.' && bytes[at + 1].is_ascii_digit() {
                at += 1;
                while at < bytes.len() && bytes[at].is_ascii_digit() {
                    at += 1;
                }
            }
            found.push((Token::Number(source[start..at].to_owned()), start, at));
        } else if byte == b'"' || byte == b'\'' {
            at += 1;
            while at < bytes.len() && bytes[at] != byte {
                at += 1;
            }
            if at == bytes.len() {
                return Err("an unterminated text".to_owned());
            }
            found.push((Token::Text(source[start + 1..at].to_owned()), start, at + 1));
            at += 1;
        } else {
            let sign = SIGNS
                .iter()
                .find(|sign| source[at..].starts_with(**sign))
                .ok_or_else(|| format!("an unexpected character at {at}"))?;
            at += sign.len();
            found.push((Token::Sign(sign), start, at));
        }
    }
    found.push((Token::End, at, at));
    Ok(found)
}

fn parse(source: &str) -> Result<Query, String> {
    let mut reader = Reader {
        source,
        tokens: tokens_of(source)?,
        at: 0,
    };
    let mut parts = vec![reader.part()?];
    let mut union_all = Vec::new();
    while reader.word("UNION") {
        union_all.push(reader.word("ALL"));
        parts.push(reader.part()?);
    }
    if *reader.peek() != Token::End {
        return Err(format!("{:?} was not expected", reader.peek()));
    }
    Ok(Query { parts, union_all })
}

impl Reader<'_> {
    fn peek(&self) -> &Token {
        &self.tokens[self.at].0
    }

    fn is_word(&self, ahead: usize, wanted: &str) -> bool {
        match &self.tokens[(self.at + ahead).min(self.tokens.len() - 1)].0 {
            Token::Word(word) => word.eq_ignore_ascii_case(wanted),
            _ => false,
        }
    }

    fn word(&mut self, wanted: &str) -> bool {
        let found = self.is_word(0, wanted);
        if found {
            self.at += 1;
        }
        found
    }

    fn sign(&mut self, wanted: &str) -> bool {
        let found = matches!(self.peek(), Token::Sign(sign) if *sign == wanted);
        if found {
            self.at += 1;
        }
        found
    }

    fn need(&mut self, wanted: &str) -> Result<(), String> {
        if self.sign(wanted) {
            Ok(())
        } else {
            Err(format!("expected {wanted}, found {:?}", self.peek()))
        }
    }

    fn name(&mut self) -> Result<String, String> {
        match self.peek().clone() {
            Token::Word(word) => {
                self.at += 1;
                Ok(word)
            }
            other => Err(format!("expected a name, found {other:?}")),
        }
    }

    fn part(&mut self) -> Result<QueryPart, String> {
        let range = SourceRange::origin();
        let mut clauses = Vec::new();
        let mut result = None;
        loop {
            if self.is_word(0, "OPTIONAL") || self.is_word(0, "MATCH") {
                let optional = self.word("OPTIONAL");
                self.word("MATCH");
                let patterns = self.patterns()?;
                let predicate = self.condition()?;
                clauses.push(Clause::Match {
                    optional,
                    patterns,
                    predicate,
                });
            } else if self.word("UNWIND") {
                let list = self.expression()?;
                self.word("AS");
                let variable = self.name()?;
                clauses.push(Clause::Unwind { list, variable });
            } else if self.word("WITH") {
                clauses.push(Clause::With(self.projection()?));
            } else if self.word("CALL") {
                clauses.push(Clause::Call(self.call()?));
            } else if self.word("CREATE") {
                let patterns = self.patterns()?;
                clauses.push(Clause::Create { patterns, range });
            } else if self.word("MERGE") {
                let pattern = self.pattern()?;
                clauses.push(Clause::Merge { pattern, range });
            } else if self.word("SET") {
                let mut items = Vec::new();
                loop {
                    let variable = self.name()?;
                    if self.sign(":") {
                        let label = self.name()?;
                        items.push(SetItem::Label { variable, label });
                    } else {
                        self.need(".")?;
                        let key = self.name()?;
                        self.need("=")?;
                        let value = self.expression()?;
                        items.push(SetItem::Property {
                            variable,
                            key,
                            value,
                        });
                    }
                    if !self.sign(",") {
                        break;
                    }
                }
                clauses.push(Clause::Assign { items, range });
            } else if self.word("REMOVE") {
                let mut items = Vec::new();
                loop {
                    let variable = self.name()?;
                    if self.sign(":") {
                        let label = self.name()?;
                        items.push(RemoveItem::Label { variable, label });
                    } else {
                        self.need(".")?;
                        let key = self.name()?;
                        items.push(RemoveItem::Property { variable, key });
                    }
                    if !self.sign(",") {
                        break;
                    }
                }
                clauses.push(Clause::Remove { items, range });
            } else if self.is_word(0, "DETACH") || self.is_word(0, "DELETE") {
                let detach = self.word("DETACH");
                self.word("DELETE");
                let targets = self.expressions()?;
                clauses.push(Clause::Delete {
                    detach,
                    targets,
                    range,
                });
            } else if self.word("RETURN") {
                result = Some(self.projection()?);
                break;
            } else {
                break;
            }
        }
        Ok(QueryPart { clauses, result })
    }

    fn condition(&mut self) -> Result<Option<Expression>, String> {
        if self.word("WHERE") {
            Ok(Some(self.expression()?))
        } else {
            Ok(None)
        }
    }

    fn projection(&mut self) -> Result<Projection, String> {
        let distinct = self.word("DISTINCT");
        let mut items = Vec::new();
        loop {
            let start = self.tokens[self.at].1;
            let expression = self.expression()?;
            let end = self.tokens[self.at - 1].2;
            let alias = if self.word("AS") {
                Some(self.name()?)
            } else {
                None
            };
            items.push(ProjectionItem {
                expression,
                alias,
                text: self.source[start..end].to_owned(),
            });
            if !self.sign(",") {
                break;
            }
        }
        let mut order_by = Vec::new();
        if self.word("ORDER") {
            self.word("BY");
            loop {
                let expression = self.expression()?;
                let descending = self.word("DESC");
                order_by.push(SortItem {
                    expression,
                    descending,
                });
                if !self.sign(",") {
                    break;
                }
            }
        }
        let skip = if self.word("SKIP") {
            Some(self.expression()?)
        } else {
            None
        };
        let limit = if self.word("LIMIT") {
            Some(self.expression()?)
        } else {
            None
        };
        let predicate = self.condition()?;
        Ok(Projection {
            distinct,
            items,
            predicate,
            order_by,
            skip,
            limit,
        })
    }

    fn call(&mut self) -> Result<ProcedureCall, String> {
        let mut name = self.name()?;
        while self.sign(".") {
            name.push('.');
            name.push_str(&self.name()?);
        }
        self.need("(")?;
        let arguments = if self.sign(")") {
            Vec::new()
        } else {
            let found = self.expressions()?;
            self.need(")")?;
            found
        };
        let mut yields = Vec::new();
        if self.word("YIELD") {
            loop {
                let column = self.name()?;
                let alias = if self.word("AS") {
                    Some(self.name()?)
                } else {
                    None
                };
                yields.push(YieldItem { column, alias });
                if !self.sign(",") {
                    break;
                }
            }
        }
        Ok(ProcedureCall {
            name,
            arguments,
            yields,
            range: SourceRange::origin(),
        })
    }

    fn patterns(&mut self) -> Result<Vec<Pattern>, String> {
        let mut found = vec![self.pattern()?];
        while self.sign(",") {
            found.push(self.pattern()?);
        }
        Ok(found)
    }

    fn pattern(&mut self) -> Result<Pattern, String> {
        let path_variable = match self.peek().clone() {
            Token::Word(word) => {
                self.at += 1;
                self.need("=")?;
                Some(word)
            }
            _ => None,
        };
        let start = self.node()?;
        let mut steps = Vec::new();
        loop {
            let incoming = self.sign("<-");
            if !incoming && !self.sign("-") {
                break;
            }
            let mut variable = None;
            let mut types = Vec::new();
            let mut length = None;
            let mut properties = Vec::new();
            if self.sign("[") {
                if let Token::Word(word) = self.peek().clone() {
                    self.at += 1;
                    variable = Some(word);
                }
                while self.sign(":") || self.sign("|") {
                    types.push(self.name()?);
                }
                if self.sign("*") {
                    let minimum = self.count()?;
                    self.need("..")?;
                    let maximum = self.count()?;
                    length = Some(LengthRange { minimum, maximum });
                }
                properties = self.map()?;
                self.need("]")?;
            }
            let direction = if incoming {
                self.need("-")?;
                Direction::Incoming
            } else if self.sign("->") {
                Direction::Outgoing
            } else {
                self.need("-")?;
                Direction::Either
            };
            let relationship = RelationshipPattern {
                variable,
                types,
                direction,
                length,
                properties,
            };
            steps.push((relationship, self.node()?));
        }
        Ok(Pattern {
            path_variable,
            start,
            steps,
        })
    }

    fn count(&mut self) -> Result<u32, String> {
        match self.peek().clone() {
            Token::Number(digits) => {
                self.at += 1;
                digits.parse().map_err(|_| format!("{digits} is no count"))
            }
            other => Err(format!("expected a count, found {other:?}")),
        }
    }

    fn node(&mut self) -> Result<NodePattern, String> {
        self.need("(")?;
        let variable = match self.peek().clone() {
            Token::Word(word) => {
                self.at += 1;
                Some(word)
            }
            _ => None,
        };
        let mut labels = Vec::new();
        while self.sign(":") {
            labels.push(self.name()?);
        }
        let properties = self.map()?;
        self.need(")")?;
        Ok(NodePattern {
            variable,
            labels,
            properties,
        })
    }

    fn map(&mut self) -> Result<Vec<(String, Expression)>, String> {
        let mut found = Vec::new();
        if self.sign("{") {
            loop {
                let key = self.name()?;
                self.need(":")?;
                found.push((key, self.expression()?));
                if !self.sign(",") {
                    break;
                }
            }
            self.need("}")?;
        }
        Ok(found)
    }

    fn expressions(&mut self) -> Result<Vec<Expression>, String> {
        let mut found = vec![self.expression()?];
        while self.sign(",") {
            found.push(self.expression()?);
        }
        Ok(found)
    }

    fn expression(&mut self) -> Result<Expression, String> {
        let mut left = self.conjunction()?;
        while self.word("OR") {
            left = binary(BinaryOperator::Or, left, self.conjunction()?);
        }
        Ok(left)
    }

    fn conjunction(&mut self) -> Result<Expression, String> {
        let mut left = self.comparison()?;
        while self.word("AND") {
            left = binary(BinaryOperator::And, left, self.comparison()?);
        }
        Ok(left)
    }

    fn comparison(&mut self) -> Result<Expression, String> {
        if self.word("NOT") {
            return Ok(Expression::Not(Box::new(self.comparison()?)));
        }
        let left = self.sum()?;
        let operator = if self.sign("=") {
            BinaryOperator::Equal
        } else if self.sign("<>") {
            BinaryOperator::NotEqual
        } else if self.sign("<=") {
            BinaryOperator::LessEqual
        } else if self.sign(">=") {
            BinaryOperator::GreaterEqual
        } else if self.sign("<") {
            BinaryOperator::Less
        } else if self.sign(">") {
            BinaryOperator::Greater
        } else if self.word("IN") {
            BinaryOperator::In
        } else {
            return Ok(left);
        };
        Ok(binary(operator, left, self.sum()?))
    }

    fn sum(&mut self) -> Result<Expression, String> {
        let mut left = self.product()?;
        loop {
            if self.sign("+") {
                left = binary(BinaryOperator::Add, left, self.product()?);
            } else if self.sign("-") {
                left = binary(BinaryOperator::Subtract, left, self.product()?);
            } else {
                return Ok(left);
            }
        }
    }

    fn product(&mut self) -> Result<Expression, String> {
        let mut left = self.term()?;
        loop {
            if self.sign("*") {
                left = binary(BinaryOperator::Multiply, left, self.term()?);
            } else if self.sign("/") {
                left = binary(BinaryOperator::Divide, left, self.term()?);
            } else if self.sign("%") {
                left = binary(BinaryOperator::Modulo, left, self.term()?);
            } else {
                return Ok(left);
            }
        }
    }

    fn number(&mut self, sign: &str) -> Result<Expression, String> {
        match self.peek().clone() {
            Token::Number(digits) => {
                self.at += 1;
                let written = format!("{sign}{digits}");
                if digits.contains('.') {
                    Ok(Expression::Float(written))
                } else {
                    written
                        .parse()
                        .map(Expression::Integer)
                        .map_err(|_| format!("{written} is out of range"))
                }
            }
            other => Err(format!("expected a number, found {other:?}")),
        }
    }

    fn term(&mut self) -> Result<Expression, String> {
        if self.sign("-") {
            return self.number("-");
        }
        if self.sign("(") {
            let inner = self.expression()?;
            self.need(")")?;
            return Ok(inner);
        }
        if self.sign("$") {
            return Ok(Expression::Parameter(self.name()?));
        }
        if self.sign("[") {
            if self.sign("]") {
                return Ok(Expression::List(Vec::new()));
            }
            let items = self.expressions()?;
            self.need("]")?;
            return Ok(Expression::List(items));
        }
        match self.peek().clone() {
            Token::Number(_) => self.number(""),
            Token::Text(text) => {
                self.at += 1;
                Ok(Expression::Text(text))
            }
            Token::Word(word) => {
                self.at += 1;
                if word.eq_ignore_ascii_case("true") {
                    return Ok(Expression::Boolean(true));
                }
                if word.eq_ignore_ascii_case("false") {
                    return Ok(Expression::Boolean(false));
                }
                if word.eq_ignore_ascii_case("null") {
                    return Ok(Expression::Null);
                }
                let mut names = vec![word];
                while self.sign(".") {
                    names.push(self.name()?);
                }
                if self.sign("(") {
                    let name = names.join(".");
                    if self.sign("*") {
                        self.need(")")?;
                        return Ok(Expression::Call {
                            name,
                            arguments: vec![Expression::Variable(STAR_ARGUMENT.to_owned())],
                        });
                    }
                    let arguments = if self.sign(")") {
                        Vec::new()
                    } else {
                        let found = self.expressions()?;
                        self.need(")")?;
                        found
                    };
                    return Ok(Expression::Call { name, arguments });
                }
                if names.len() == 1 {
                    return Ok(Expression::Variable(names.remove(0)));
                }
                if names.len() == 2 {
                    let key = names.remove(1);
                    let variable = names.remove(0);
                    return Ok(Expression::Property { variable, key });
                }
                Err("a property of a property".to_owned())
            }
            other => Err(format!("expected an expression, found {other:?}")),
        }
    }
}

fn binary(operator: BinaryOperator, left: Expression, right: Expression) -> Expression {
    Expression::Binary {
        operator,
        left: Box::new(left),
        right: Box::new(right),
    }
}

#[test]
fn a_set_reads_every_row_before_it_writes_one() {
    let mut target = graph();
    run_on(
        &mut target,
        "MATCH (a:Database {name: 'primary'}), (b:Database {name: 'lonely'}) \
         SET a.size = b.size, b.size = a.size",
    );
    assert_eq!(
        texts(&run_on(&mut target, "MATCH (n:Database) RETURN n.name, n.size ORDER BY n.name")),
        ["lonely|10", "primary|4"]
    );
}

#[test]
fn a_query_refused_half_way_keeps_labels_identifiers_and_links() {
    let mut target = graph();
    let before = target.clone();
    refuse_on(&mut target, "CREATE (n:New) WITH n MATCH (d:Database) REMOVE d:Database");
    assert_eq!(target.links, before.links);
    assert_eq!(target.schemas, before.schemas);
    assert_eq!(target.nodes[..4], before.nodes[..]);
    assert_eq!(target.nodes.len(), 5);
    assert_eq!(target.nodes[4].contributions[0].owner, Owner::user());
    for (at, node) in target.nodes.iter().enumerate() {
        assert!(!node.labels.is_empty());
        assert!(target.nodes[..at].iter().all(|other| other.id != node.id));
    }
}


#[test]
fn a_walk_round_a_circle_is_at_no_node_twice() {
    let mut cyclic = graph();
    cyclic.edges.push(edge(0x3, 0xC, 0xA, "CALLS"));
    assert_eq!(
        texts(&run_on(
            &mut cyclic,
            "MATCH (a:Service {name: 'alpha'})-[:CALLS*1..10]->(b) RETURN b.name ORDER BY b.name"
        )),
        ["beta", "primary"]
    );
    assert_eq!(
        texts(&run_on(
            &mut cyclic,
            "MATCH (a:Service {name: 'alpha'})-[:CALLS*2..10]->(b) RETURN b.name"
        )),
        ["primary"]
    );
}

struct Stopped;

impl ShouldStop for Stopped {
    fn must_stop(&self) -> bool {
        true
    }

    fn may_stop(&self) -> bool {
        true
    }

    fn should_stop(&self) -> bool {
        true
    }

    fn reason(&self) -> String {
        "out of time".to_owned()
    }
}

#[test]
fn what_always_asks_to_stop_is_heeded_before_anything_is_done() {
    let mut target = graph();
    let before = target.clone();
    let refused = execute_cancellable(
        &parse("MATCH (n) DETACH DELETE n").unwrap(),
        &mut target,
        &Parameters::new(),
        &DatabaseContext::default(),
        &Stopped,
    )
    .expect_err("stopped");
    assert_eq!(refused.code, DiagnosticCode::QueryCancelled);
    assert!(refused.message.contains("out of time"), "{}", refused.message);
    assert_eq!(target, before);
    assert!(heed(None).is_ok());
    assert_eq!(heed(Some("out of time".to_owned())), Err(refused));
}

#[test]
fn every_node_of_every_source_has_a_row_of_its_own() {
    let mut root = graph();
    let linked = [
        (locator("./one.nostdb"), graph()),
        (locator("./two.nostdb"), Graph::default()),
        (locator("./three.nostdb"), graph()),
    ];
    for source in ["MATCH (n) RETURN n", "MATCH (n) RETURN DISTINCT n"] {
        let result = run_over(source, &mut root, &linked);
        assert_eq!(result.row_count(), 12, "{source}");
        assert_eq!(result.columns, ["n"]);
        assert!(result.rows.iter().all(|row| row.len() == result.columns.len()));
        let mut keys: Vec<String> = result
            .rows
            .iter()
            .map(|row| match &row[0] {
                QueryValue::Node(handle) => handle.sort_key(),
                other => panic!("{other:?}"),
            })
            .collect();
        keys.sort();
        keys.dedup();
        assert_eq!(keys.len(), 12, "{source}");
    }
}
