use nostdb_core::locator::CanonicalSourceLocator;
use nostdb_core::evidence::Confidence;
use nostdb_core::nost::convert::ConversionError;
use nostdb_core::name::DeclarationName;
use nostdb_core::graph::Edge;
use nostdb_core::evidence::EvidenceMethod;
use nostdb_core::schema::FieldType;
use nostdb_core::graph::Graph;
use nostdb_core::name::Label;
use nostdb_core::link::Link;
use nostdb_core::name::LinkAlias;
use nostdb_core::id::LocalEdgeId;
use nostdb_core::id::LocalNodeId;
use nostdb_core::graph::Node;
use nostdb_core::graph::NodeReference;
use nostdb_core::contribution::Owner;
use nostdb_core::contribution::OwnerKind;
use nostdb_core::nost::convert::PLACEHOLDER_LABEL;
use nostdb_core::property::PropertyValue;
use nostdb_core::name::RelationName;
use nostdb_core::schema::ScalarType;
use nostdb_core::graph::ScopedNodeId;
use nostdb_core::id::SourceUnitId;
use nostdb_core::nost::export::from_graph;
use nostdb_core::nost::convert::generated_name;
use nostdb_core::nost::parser::parse;
use nostdb_core::nost::convert::to_graph;
use nostdb_core::nost::convert::to_graph_with;
use nostdb_core::id::Minter;

fn graph_of(source: &str) -> Graph {
    let file = parse(source).expect("must parse");
    to_graph(&file).expect("must convert")
}

#[test]
fn an_empty_document_converts_to_an_empty_graph() {
    assert!(graph_of("@nost 2\n").is_empty());
}

#[test]
fn version_one_is_refused() {
    let file = parse("@nost 1\n").unwrap();
    assert_eq!(
        to_graph(&file),
        Err(ConversionError::UnsupportedVersion { found: 1 })
    );
}

#[test]
fn a_stated_identifier_is_kept_and_an_absent_one_is_minted() {
    let stated = "n_0198a1b2-c3d4-7e5f-8a9b-0c1d2e3f4a5b";
    let graph = graph_of(&format!(
        "@nost 2\nnode a: L {{\n id: \"{stated}\",\n}}\nnode b: L {{}}\n"
    ));
    assert_eq!(graph.nodes[0].id.to_string(), stated);
    assert_ne!(graph.nodes[1].id.to_string(), stated);
    assert_eq!(graph.nodes[1].id.to_bytes()[6] >> 4, 0x7);
}

#[test]
fn schema_names_and_the_labels_key_both_become_labels() {
    let graph = graph_of("@nost 2\nnode a: Alpha, Beta {\n labels: [\"Gamma\"],\n}\n");
    let labels: Vec<&str> = graph.nodes[0]
        .labels
        .iter()
        .map(Label::as_str)
        .collect();
    assert_eq!(labels, ["Alpha", "Beta", "Gamma"]);
    assert!(graph.nodes[0].properties.is_empty());
}

#[test]
fn a_repeated_label_is_kept_once() {
    let graph = graph_of("@nost 2\nnode a: Alpha {\n labels: [\"Alpha\"],\n}\n");
    assert_eq!(graph.nodes[0].labels.len(), 1);
}

#[test]
fn every_property_value_type_converts() {
    let graph = graph_of(
        "@nost 2\nnode a: L {\n flag: true,\n count: 42,\n ratio: 0.5,\n name: \"x\",\n \
         payload: bytes\"dead\",\n at: datetime\"2026-07-27T00:00:00Z\",\n \
         tags: [\"a\", 1],\n}\n",
    );
    let values: std::collections::BTreeMap<&str, &PropertyValue> = graph.nodes[0]
        .properties
        .iter()
        .map(|(key, value)| (key.as_str(), value))
        .collect();
    assert_eq!(values["flag"], &PropertyValue::Boolean(true));
    assert_eq!(values["count"], &PropertyValue::Integer(42));
    assert_eq!(values["payload"], &PropertyValue::Bytes(vec![0xDE, 0xAD]));
    assert!(matches!(values["ratio"], PropertyValue::Float(_)));
    assert!(matches!(values["at"], PropertyValue::DateTime(_)));
    assert!(matches!(values["tags"], PropertyValue::List(items) if items.len() == 2));
}

#[test]
fn an_out_of_range_integer_is_a_conversion_error_not_a_panic() {
    let file = parse("@nost 2\nnode a: L {\n k: 9223372036854775808,\n}\n").unwrap();
    let error = to_graph(&file).unwrap_err();
    assert!(matches!(error, ConversionError::InvalidValue { .. }));
    assert!(error.range().is_some());
}

#[test]
fn an_unresolved_endpoint_becomes_a_placeholder_node() {
    let graph = graph_of("@nost 2\nnode a: L {}\nedge a -> gone :R {}\n");
    assert_eq!(graph.nodes.len(), 2);
    assert_eq!(graph.nodes[1].labels[0].as_str(), PLACEHOLDER_LABEL);
    assert!(matches!(graph.edges[0].target, NodeReference::Local(_)));
}

#[test]
fn an_external_endpoint_is_refused_rather_than_degraded() {
    for source in [
        "@nost 2\n@link \"./s\" as s\nnode a: L {}\nedge a -> s::x :R {}\n",
        "@nost 2\n@link \"./c\"\nnode a: L {}\nedge a -> \"./c\"::x :R {}\n",
    ] {
        let file = parse(source).unwrap();
        let error = to_graph(&file).unwrap_err();
        assert!(
            matches!(error, ConversionError::ExternalEndpoint { .. }),
            "{error:?}"
        );
    }
}

#[test]
fn links_and_schemas_convert() {
    let graph = graph_of(
        "@nost 2\n@link \"./c\"\n@link \"./s\" as s\n\
         schema Function {\n name: string,\n tags?: string[],\n}\n\
         schema CALLS (Function -> Function) {}\n",
    );
    assert_eq!(graph.links.len(), 2);
    assert_eq!(graph.links[1].alias.as_ref().unwrap().as_str(), "s");

    assert_eq!(graph.schemas.len(), 2);
    assert_eq!(graph.schemas[0].name.as_str(), "CALLS");
    let constraint = graph.schemas[0].endpoints.as_ref().unwrap();
    assert_eq!(constraint.source.as_str(), "Function");

    let function = &graph.schemas[1];
    assert_eq!(function.name.as_str(), "Function");
    assert_eq!(function.fields[0].key.as_str(), "name");
    assert_eq!(
        function.fields[0].field_type,
        FieldType::scalar(ScalarType::String)
    );
    assert!(function.fields[0].required);
    assert_eq!(function.fields[1].key.as_str(), "tags");
    assert!(!function.fields[1].required);
    assert_eq!(
        function.fields[1].field_type,
        FieldType::array(ScalarType::String)
    );
}

#[test]
fn contributions_and_evidence_convert() {
    let graph = graph_of(
        "@nost 2\nnode a: L {\n \
         @by analyzer \"rust\" \"0.1.0\" unit \"u_0198a1b2-c3d4-7e5f-8a9b-0c1d2e3f4a5b\" {\n  \
         @evidence {\n   source: \"./\",\n   path: \"src/a.rs\",\n   \
         digest: \"sha256:abcdef0123456789abcdef0123456789\",\n   \
         range: \"1:1:0-2:1:10\",\n   method: deterministic,\n   confidence: extracted,\n  }\n \
         }\n \
         @by user {}\n}\n",
    );
    let contributions = &graph.nodes[0].contributions;
    assert_eq!(contributions.len(), 2);

    let analyzer = &contributions[0];
    assert!(matches!(analyzer.owner, Owner::Analyzer { .. }));
    assert_ne!(analyzer.source_unit, SourceUnitId::query());
    let evidence = &analyzer.evidence[0];
    assert_eq!(evidence.producer.as_str(), "rust");
    assert_eq!(evidence.producer_version.as_str(), "0.1.0");
    assert_eq!(evidence.method, EvidenceMethod::Deterministic);
    assert_eq!(evidence.confidence, Confidence::Extracted);
    assert_eq!(evidence.range.unwrap().byte_length(), 10);

    assert_eq!(contributions[1].owner, Owner::User);
    assert_eq!(contributions[1].source_unit, SourceUnitId::query());
}

#[test]
fn a_score_carrying_confidence_converts() {
    let graph = graph_of(
        "@nost 2\nnode a: L {\n @by ai \"sha256:abcdef0123456789abcdef0123456789\" {\n  \
         @evidence {\n   source: \"./\",\n   \
         digest: \"sha256:abcdef0123456789abcdef0123456789\",\n   producer: \"p\",\n   \
         producer_version: \"1\",\n   method: ai_inferred,\n   confidence: inferred(0.25),\n  \
         }\n }\n}\n",
    );
    match graph.nodes[0].contributions[0].evidence[0].confidence {
        Confidence::Inferred { score } => assert!((f32::from_bits(score.get()) - 0.25).abs() < f32::EPSILON),
        other => panic!("expected an inferred confidence, found {other:?}"),
    }
}


fn round_trip(source: &str) -> (Graph, String) {
    let graph = graph_of(source);
    let exported = nostdb_core::nost::format::format(&from_graph(&graph));
    let reimported = to_graph(&parse(&exported).expect("exported text must parse"))
        .expect("exported text must convert");
    assert_eq!(reimported, graph, "graph content changed:\n{exported}");
    let again = nostdb_core::nost::format::format(&from_graph(&reimported));
    assert_eq!(again, exported, "export is not a fixed point:\n{exported}");
    (graph, exported)
}

#[test]
fn graph_content_survives_a_round_trip() {
    round_trip(
        "@nost 2\n@link \"./c\"\n@link \"./s\" as s\n\
         schema Function {\n name: string,\n tags?: string[],\n}\n\
         node login: Function {\n id: \"n_0198a1b2-c3d4-7e5f-8a9b-0c1d2e3f4a5b\",\n \
         name: \"login\",\n tags: [\"a\"],\n labels: [\"Public\"],\n}\n\
         node other: Function {\n id: \"n_0198a1b2-c3d4-7e5f-8a9b-0c1d2e3f4a5c\",\n \
         name: \"other\",\n}\n\
         edge login -> other :CALLS {\n \
         id: \"e_0198a1b2-c3d4-7e5f-8a9b-0c1d2e3f4a5d\",\n}\n",
    );
}

#[test]
fn contributions_survive_a_round_trip() {
    round_trip(
        "@nost 2\nnode a: L {\n id: \"n_0198a1b2-c3d4-7e5f-8a9b-0c1d2e3f4a5b\",\n \
         @by analyzer \"rust\" \"0.1.0\" unit \"u_0198a1b2-c3d4-7e5f-8a9b-0c1d2e3f4a5b\" {\n  \
         @evidence {\n   source: \"./\",\n   path: \"src/a.rs\",\n   \
         revision: \"abc\",\n   \
         digest: \"sha256:abcdef0123456789abcdef0123456789\",\n   \
         range: \"1:1:0-2:1:10\",\n   method: deterministic,\n   \
         confidence: ambiguous(0.5),\n  }\n }\n \
         @by user {}\n}\n",
    );
}

#[test]
fn a_round_trip_preserves_ownership_rather_than_collapsing_it() {
    let (graph, _) = round_trip(
        "@nost 2\nnode a: L {\n id: \"n_0198a1b2-c3d4-7e5f-8a9b-0c1d2e3f4a5b\",\n \
         @by analyzer \"rust\" \"0.1.0\" {\n  @evidence {\n   source: \"./\",\n   \
         digest: \"sha256:abcdef0123456789abcdef0123456789\",\n   method: deterministic,\n   \
         confidence: extracted,\n  }\n }\n \
         @by user {}\n}\n",
    );
    let owners: Vec<_> = graph.nodes[0]
        .contributions
        .iter()
        .map(|contribution| contribution.owner.kind())
        .collect();
    assert_eq!(
        owners,
        vec![
            OwnerKind::Analyzer,
            OwnerKind::User
        ]
    );
}

#[test]
fn a_minted_identifier_is_written_out_so_the_next_pass_carries_it() {
    let source = "@nost 2\nnode a: L {}\n";
    let exported = nostdb_core::nost::format::format(&from_graph(&graph_of(source)));
    assert!(exported.contains("id: \"n_"), "{exported}");
    assert_eq!(graph_of(&exported), graph_of(&exported));
}

#[test]
fn an_external_reference_exports_through_its_alias_or_its_locator() {
    let locator = CanonicalSourceLocator::new("./shared").unwrap();
    let mut graph = Graph {
        nodes: vec![Node {
            id: LocalNodeId::from_bytes([1; 16]),
            labels: vec![Label::new("L").unwrap()],
            properties: Vec::new(),
            contributions: Vec::new(),
        }],
        edges: vec![Edge {
            id: LocalEdgeId::from_bytes([2; 16]),
            source: NodeReference::Local(LocalNodeId::from_bytes([1; 16])),
            target: NodeReference::External(ScopedNodeId {
                source: locator.clone(),
                local: LocalNodeId::from_bytes([3; 16]),
            }),
            relation: RelationName::new("CALLS").unwrap(),
            properties: Vec::new(),
            contributions: Vec::new(),
        }],
        links: vec![Link::new(locator.clone())],
        schemas: Vec::new(),
    };

    let bare = nostdb_core::nost::format::format(&from_graph(&graph));
    assert!(bare.contains("\"./shared\"::n_"), "{bare}");

    graph.links = vec![Link::with_alias(locator, LinkAlias::new("shared").unwrap())];
    let aliased = nostdb_core::nost::format::format(&from_graph(&graph));
    assert!(aliased.contains("shared::n_"), "{aliased}");
}

#[test]
fn a_generated_declaration_name_is_a_valid_identifier_and_unique_per_record() {
    let first = generated_name(LocalNodeId::from_bytes([0xAB; 16]));
    let second = generated_name(LocalNodeId::from_bytes([0xCD; 16]));
    assert_ne!(first, second);
    assert!(first.as_str().starts_with("n_"));
    assert!(DeclarationName::new(first.as_str()).is_ok());
}

#[test]
fn a_minted_identifier_is_none_that_a_record_states() {
    let file = parse(
        "@nost 2\nnode a: L {\n id: \"n_00000000-0000-0005-0000-000000000000\",\n}\nnode b: L {}\n",
    )
    .unwrap();
    let graph = to_graph_with(&file, &mut Minter::sequential(5)).expect("converts");
    assert_eq!(graph.nodes.len(), 2);
    assert_ne!(graph.nodes[0].id, graph.nodes[1].id);
}

#[test]
fn an_edge_does_not_take_an_identifier_from_a_node() {
    // The first value of the minter is stated by an edge, so a node may still have it.
    let file = parse(
        "@nost 2\nnode a: L {}\nnode b: L {}\n\
         edge a -> b :R {\n id: \"e_00000000-0000-0005-0000-000000000000\",\n}\n",
    )
    .unwrap();
    let graph = to_graph_with(&file, &mut Minter::sequential(5)).expect("converts");
    let ids: Vec<String> = graph.nodes.iter().map(|node| node.id.to_string()).collect();
    assert_eq!(
        ids,
        [
            "n_00000000-0000-0005-0000-000000000000",
            "n_00000000-0000-0005-0000-000000000001",
        ]
    );
}

#[test]
fn a_node_does_not_take_an_identifier_from_an_edge() {
    let file = parse(
        "@nost 2\nnode a: L {\n id: \"n_00000000-0000-0005-0000-000000000000\",\n}\n\
         edge a -> a :R {}\nedge a -> a :S {\n id: \"e_00000000-0000-0005-0000-000000000001\",\n}\n\
         edge a -> a :T {}\n",
    )
    .unwrap();
    let mut minter = Minter::sequential(5);
    let graph = to_graph_with(&file, &mut minter).expect("converts");
    let ids: Vec<String> = graph.edges.iter().map(|edge| edge.id.to_string()).collect();
    assert_eq!(
        ids,
        [
            "e_00000000-0000-0005-0000-000000000000",
            "e_00000000-0000-0005-0000-000000000001",
            "e_00000000-0000-0005-0000-000000000002",
        ]
    );
    assert_eq!(minter.issued(), 3, "the one that an edge states is passed over");
}

#[test]
fn links_are_kept_in_the_order_of_their_locators() {
    let graph = graph_of("@nost 2\n@link \"./z\"\n@link \"./a\" as a\n@link \"./m\"\n");
    let places: Vec<&str> = graph.links.iter().map(|link| link.source.as_str()).collect();
    assert_eq!(places, ["./a", "./m", "./z"]);
}

#[test]
fn the_order_of_declarations_and_of_what_is_in_them_does_not_matter() {
    let one = "@nost 2\n@link \"./a\" as a\n@link \"./z\"\n\
         schema S {\n k: string,\n l?: integer,\n}\nschema T {}\n\
         node x: S {\n id: \"n_0198a1b2-c3d4-7e5f-8a9b-0c1d2e3f4a50\",\n k: \"v\",\n \
         labels: [\"M\"],\n l: 1,\n}\n\
         node y: T {\n id: \"n_0198a1b2-c3d4-7e5f-8a9b-0c1d2e3f4a51\",\n \
         @by user {\n @evidence {\n source: \"./\",\n \
         digest: \"sha256:abcdef0123456789abcdef0123456789\",\n producer: \"p\",\n \
         producer_version: \"1\",\n method: user_declared,\n confidence: extracted,\n }\n }\n}\n\
         edge x -> y :R {\n id: \"e_0198a1b2-c3d4-7e5f-8a9b-0c1d2e3f4a52\",\n w: 1,\n v: 2,\n}\n\
         edge y -> x :R {\n id: \"e_0198a1b2-c3d4-7e5f-8a9b-0c1d2e3f4a53\",\n}\n";
    let other = "@nost 2\n@link \"./z\"\n@link \"./a\" as a\n\
         edge y -> x :R {\n id: \"e_0198a1b2-c3d4-7e5f-8a9b-0c1d2e3f4a53\",\n}\n\
         node y: T {\n id: \"n_0198a1b2-c3d4-7e5f-8a9b-0c1d2e3f4a51\",\n \
         @by user {\n @evidence {\n confidence: extracted,\n method: user_declared,\n \
         producer_version: \"1\",\n producer: \"p\",\n \
         digest: \"sha256:abcdef0123456789abcdef0123456789\",\n source: \"./\",\n }\n }\n}\n\
         schema T {}\n\
         edge x -> y :R {\n v: 2,\n w: 1,\n id: \"e_0198a1b2-c3d4-7e5f-8a9b-0c1d2e3f4a52\",\n}\n\
         node x: S {\n l: 1,\n labels: [\"M\"],\n k: \"v\",\n \
         id: \"n_0198a1b2-c3d4-7e5f-8a9b-0c1d2e3f4a50\",\n}\n\
         schema S {\n l?: integer,\n k: string,\n}\n";
    assert_eq!(graph_of(one), graph_of(other));
    assert_eq!(graph_of(one).edges.len(), 2);
}
