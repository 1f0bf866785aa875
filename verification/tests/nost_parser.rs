use nostdb_core::nost::DeclarationRef;
use nostdb_core::nost::Endpoint;
use nostdb_core::nost::EvidenceValue;
use nostdb_core::nost::OwnerDeclaration;
use nostdb_core::schema::ScalarType;
use nostdb_core::nost::Value;
use nostdb_core::nost::parser::parse;

#[test]
fn parses_the_smallest_file() {
    let file = parse("@nost 2\n").unwrap();
    assert_eq!(file.version.value, 2);
    assert!(file.links.is_empty());
    assert!(file.schemas.is_empty());
    assert!(file.nodes.is_empty());
    assert!(file.edges.is_empty());
}

#[test]
fn parses_links_with_and_without_an_alias() {
    let file = parse("@nost 2\n@link \"./a\"\n@link \"./b\" as b\n").unwrap();
    assert_eq!(file.links.len(), 2);
    assert_eq!(file.links[0].source.value, "./a");
    assert!(file.links[0].alias.is_none());
    assert_eq!(
        file.links[1].alias.as_ref().map(|a| a.value.as_str()),
        Some("b")
    );
}

#[test]
fn parses_a_schema_with_required_optional_and_array_fields() {
    let file = parse(
        "@nost 2\nschema S {\n  a: string,\n  b?: integer,\n  c: double[],\n  d?: bytes,\n}\n",
    )
    .unwrap();
    let schema = &file.schemas[0];
    assert_eq!(schema.name.value, "S");
    assert!(schema.endpoints.is_none());
    assert_eq!(schema.fields.len(), 4);
    assert!(!schema.fields[0].optional);
    assert_eq!(schema.fields[0].field_type.value.scalar, ScalarType::String);
    assert!(schema.fields[1].optional);
    assert!(schema.fields[2].field_type.value.array);
    assert_eq!(schema.fields[3].field_type.value.scalar, ScalarType::Bytes);
}

#[test]
fn parses_an_edge_schema_endpoint_constraint() {
    let file = parse("@nost 2\nschema R (A -> B) {\n  since?: datetime,\n}\n").unwrap();
    let constraint = file.schemas[0].endpoints.as_ref().unwrap();
    assert_eq!(constraint.source.value, "A");
    assert_eq!(constraint.target.value, "B");
}

#[test]
fn a_node_may_name_several_schemas() {
    let file = parse("@nost 2\nnode n: A, B, C {}\n").unwrap();
    let names: Vec<&str> = file.nodes[0]
        .schemas
        .iter()
        .map(|s| s.value.as_str())
        .collect();
    assert_eq!(names, ["A", "B", "C"]);
}

#[test]
fn parses_all_three_endpoint_forms() {
    let source = "@nost 2\n@link \"./c\"\n@link \"./s\" as s\n\
        node a: L {}\nnode b: L {}\n\
        edge a -> b :CALLS {}\n\
        edge a -> s::x :CALLS {}\n\
        edge a -> \"./c\"::y :CALLS {}\n";
    let file = parse(source).unwrap();
    assert_eq!(file.nodes.len(), 2);
    assert_eq!(file.edges.len(), 3);
    assert!(matches!(file.edges[0].source, Endpoint::Local(_)));
    assert!(matches!(file.edges[1].target, Endpoint::Aliased { .. }));
    assert!(matches!(file.edges[2].target, Endpoint::Locator { .. }));
}

#[test]
fn a_trailing_comma_is_accepted_and_optional() {
    assert!(parse("@nost 2\nnode n: L {\n  a: 1,\n  b: 2,\n}\n").is_ok());
    assert!(parse("@nost 2\nnode n: L {\n  a: 1,\n  b: 2\n}\n").is_ok());
    assert!(parse("@nost 2\nschema S {\n  a: string,\n}\n").is_ok());
    assert!(parse("@nost 2\nschema S {\n  a: string\n}\n").is_ok());
}

#[test]
fn a_property_must_be_separated_by_a_comma() {
    let error = parse("@nost 2\nnode n: L {\n  a: 1\n  b: 2\n}\n").unwrap_err();
    assert!(error.message.contains("close a record block"), "{}", error.message);
}

#[test]
fn parses_contributions_and_evidence() {
    let source = "@nost 2\nnode n: L {\n  k: \"v\",\n\n\
        \x20 @by analyzer \"rust\" \"0.1.0\" unit \"u_1\" {\n\
        \x20   @evidence {\n      source: \"./\",\n      method: deterministic,\n\
        \x20     confidence: inferred(0.5),\n    }\n  }\n\n  @by user {}\n}\n";
    let file = parse(source).unwrap();
    let record = &file.nodes[0].record;
    assert_eq!(record.contributions.len(), 2);

    let first = &record.contributions[0];
    assert!(matches!(first.owner, OwnerDeclaration::Analyzer { .. }));
    assert_eq!(first.unit.as_ref().map(|u| u.value.as_str()), Some("u_1"));
    assert_eq!(first.evidence.len(), 1);
    let fields = &first.evidence[0].fields;
    assert_eq!(fields[0].key.value, "source");
    assert_eq!(
        fields[1].value.value,
        EvidenceValue::Enumerator {
            name: "deterministic".to_owned(),
            score: None
        }
    );
    assert_eq!(
        fields[2].value.value,
        EvidenceValue::Enumerator {
            name: "inferred".to_owned(),
            score: Some("0.5".to_owned())
        }
    );

    assert!(matches!(
        record.contributions[1].owner,
        OwnerDeclaration::User { .. }
    ));
    assert!(record.contributions[1].evidence.is_empty());
}

#[test]
fn an_ai_owner_carries_its_contract_digest() {
    let file = parse("@nost 2\nnode n: L {\n  @by ai \"sha256:abc\" {}\n}\n").unwrap();
    match &file.nodes[0].record.contributions[0].owner {
        OwnerDeclaration::Ai { contract_digest } => {
            assert_eq!(contract_digest.value, "sha256:abc");
        }
        other => panic!("expected an AI owner, found {other:?}"),
    }
}

#[test]
fn declaration_order_is_preserved() {
    let file = parse("@nost 2\nnode a: L {}\nschema L {}\nedge a -> a :R {}\n").unwrap();
    assert_eq!(
        file.order,
        [
            DeclarationRef::Node(0),
            DeclarationRef::Schema(0),
            DeclarationRef::Edge(0)
        ]
    );
}

#[test]
fn attaches_leading_and_trailing_comments() {
    let source = "// file\n@nost 2 // version\n\
        // about the node\nnode n: L {\n\
        \x20 // about the key\n  k: \"v\", // after the key\n}\n";
    let file = parse(source).unwrap();
    assert_eq!(file.version_comments.leading.len(), 1);
    assert_eq!(file.version_comments.leading[0].text, "file");
    assert_eq!(
        file.version_comments
            .trailing
            .as_ref()
            .map(|c| c.text.as_str()),
        Some("version")
    );
    let node = &file.nodes[0];
    assert_eq!(node.record.comments.leading[0].text, "about the node");
    let property = &node.record.properties[0];
    assert_eq!(property.comments.leading[0].text, "about the key");
    assert_eq!(
        property.comments.trailing.as_ref().map(|c| c.text.as_str()),
        Some("after the key")
    );
}

#[test]
fn a_comment_with_nothing_after_it_attaches_to_the_block() {
    let file = parse("@nost 2\nnode n: L {\n  // nothing follows\n}\n").unwrap();
    assert_eq!(file.nodes[0].record.block_comments.len(), 1);
    assert_eq!(
        file.nodes[0].record.block_comments[0].text,
        "nothing follows"
    );
}

#[test]
fn a_link_after_a_declaration_is_rejected_with_a_useful_message() {
    let error = parse("@nost 2\nschema S {}\n@link \"./a\"\n").unwrap_err();
    assert!(error.message.contains("before every schema"), "{}", error.message);
    assert_eq!(error.range.start().line, 3);
}

#[test]
fn a_reserved_word_where_a_name_belongs_is_named_in_the_message() {
    let error = parse("@nost 2\nschema schema {}\n").unwrap_err();
    assert!(error.message.contains("reserved word"), "{}", error.message);
}

#[test]
fn the_version_1_module_declaration_no_longer_parses() {
    let error = parse("@nost 2\nmodule auth id \"m_1\" {\n}\n").unwrap_err();
    assert!(error.message.contains("expected `schema`"), "{}", error.message);
}

#[test]
fn the_version_1_edge_form_no_longer_parses() {
    let error = parse("@nost 2\nedge e id \"e_1\" :CALLS (a -> b) {}\n").unwrap_err();
    assert!(error.message.contains("`->`"), "{}", error.message);
}

#[test]
fn rejects_the_syntax_the_contract_forbids() {
    for (source, note) in [
        ("@link \"./a\"\n", "a missing version header"),
        ("\u{FEFF}@nost 2\n", "a byte-order mark"),
        ("@nost 2\nnode n {\n}\n", "a node without a schema"),
        (
            "@nost 2\nnode n: A, {\n}\n",
            "a trailing comma in a schema list",
        ),
        ("@nost 2\nnode n: L {\n k: null\n}\n", "a null value"),
        (
            "@nost 2\nnode n: L {\n k: [1, 2,]\n}\n",
            "a trailing comma in a list",
        ),
        ("@nost 2\nnode n: L {\n k: [1, [2]]\n}\n", "a nested list"),
        ("@nost 2\nedge a -> :R {}\n", "a missing endpoint"),
        ("@nost 2\nedge a -> b :R :S {}\n", "two relation names"),
        (
            "@nost 2\nschema S {\n name: text,\n}\n",
            "an unknown field type",
        ),
        (
            "@nost 2\nschema S {\n g: string[][],\n}\n",
            "a nested array type",
        ),
        ("@nost 2\nschema S {\n name,\n}\n", "a field without a type"),
    ] {
        let result = parse(source);
        assert!(result.is_err(), "{note} must be rejected");
        let error = result.unwrap_err();
        assert!(error.range.start().line >= 1, "{note} needs a range");
    }
}

#[test]
fn an_unknown_field_type_says_what_is_accepted() {
    let error = parse("@nost 2\nschema S {\n  name: text,\n}\n").unwrap_err();
    assert!(
        error.message.contains("`text` is not a field type"),
        "{}", error.message
    );
    assert!(error.message.contains("double"), "{}", error.message);
}

#[test]
fn an_out_of_range_integer_parses_because_that_is_a_semantic_rule() {
    let file = parse("@nost 2\nnode n: L {\n  k: 9223372036854775808,\n}\n").unwrap();
    assert_eq!(
        file.nodes[0].record.properties[0].value.value,
        Value::Integer("9223372036854775808".to_owned())
    );
}

#[test]
fn an_unsupported_version_parses_because_refusing_it_is_semantic() {
    assert_eq!(parse("@nost 1\n").unwrap().version.value, 1);
    assert_eq!(parse("@nost 99\n").unwrap().version.value, 99);
}
