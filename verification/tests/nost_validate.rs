use nostdb_core::diagnostic::DiagnosticCode;
use nostdb_core::diagnostic::Severity;
use nostdb_core::nost::validate::has_errors;
use nostdb_core::nost::parser::parse;
use nostdb_core::nost::validate::validate;

const NODE_ID: &str = "n_0198a1b2-c3d4-7e5f-8a9b-0c1d2e3f4a5b";
const OTHER_ID: &str = "n_0198a1b2-c3d4-7e5f-8a9b-0c1d2e3f4a5c";

fn codes(source: &str) -> Vec<DiagnosticCode> {
    let file = parse(source).expect("the fixture must parse");
    validate(&file).into_iter().map(|d| d.code).collect()
}

#[test]
fn a_valid_file_reports_nothing() {
    assert!(codes("@nost 2\nschema L {\n k: integer,\n}\nnode n: L {\n k: 1,\n}\n").is_empty());
}

#[test]
fn reports_an_unsupported_language_version() {
    assert_eq!(
        codes("@nost 999\n"),
        vec![DiagnosticCode::NostVersionUnsupported]
    );
}

#[test]
fn version_one_is_refused_rather_than_read() {
    assert_eq!(
        codes("@nost 1\n"),
        vec![DiagnosticCode::NostVersionUnsupported]
    );
}

#[test]
fn reports_duplicate_links() {
    assert_eq!(
        codes("@nost 2\n@link \"./a\"\n@link \"./a\" as a\n"),
        vec![DiagnosticCode::NostDuplicateLinkSource]
    );
    assert_eq!(
        codes("@nost 2\n@link \"./a\" as s\n@link \"./b\" as s\n"),
        vec![DiagnosticCode::NostDuplicateLinkAlias]
    );
}

#[test]
fn reports_a_duplicate_schema_name() {
    assert_eq!(
        codes("@nost 2\nschema S {}\nschema S {}\n"),
        vec![DiagnosticCode::NostDuplicateSchemaName]
    );
}

#[test]
fn reports_duplicate_names_ids_and_keys() {
    assert_eq!(
        codes("@nost 2\nnode d: L {}\nnode d: L {}\n"),
        vec![DiagnosticCode::NostDuplicateDeclarationName]
    );
    assert_eq!(
        codes(&format!(
            "@nost 2\nnode a: L {{\n id: \"{NODE_ID}\",\n}}\nnode b: L {{\n id: \"{NODE_ID}\",\n}}\n"
        )),
        vec![DiagnosticCode::NostDuplicateId]
    );
    assert_eq!(
        codes("@nost 2\nnode a: L {\n k: 1,\n k: 2,\n}\n"),
        vec![DiagnosticCode::NostDuplicatePropertyKey]
    );
}

#[test]
fn reports_a_malformed_record_identifier() {
    assert_eq!(
        codes("@nost 2\nnode a: L {\n id: \"n_1\",\n}\n"),
        vec![DiagnosticCode::NostInvalidId]
    );
    assert_eq!(
        codes(&format!(
            "@nost 2\nedge a -> a :R {{\n id: \"{NODE_ID}\",\n}}\n"
        ))
        .into_iter()
        .filter(|code| *code == DiagnosticCode::NostInvalidId)
        .count(),
        1
    );
}

#[test]
fn an_edge_identifier_is_accepted_on_an_edge() {
    let edge_id = format!("e_{}", &NODE_ID[2..]);
    let source =
        format!("@nost 2\nnode a: L {{}}\nedge a -> a :R {{\n id: \"{edge_id}\",\n}}\n");
    assert!(codes(&source).is_empty(), "{:?}", codes(&source));
}

#[test]
fn two_records_may_state_different_identifiers() {
    let source = format!(
        "@nost 2\nnode a: L {{\n id: \"{NODE_ID}\",\n}}\nnode b: L {{\n id: \"{OTHER_ID}\",\n}}\n"
    );
    assert!(codes(&source).is_empty(), "{:?}", codes(&source));
}

#[test]
fn reports_a_missing_required_field_and_a_wrong_type() {
    assert_eq!(
        codes("@nost 2\nschema S {\n name: string,\n}\nnode a: S {}\n"),
        vec![DiagnosticCode::NostSchemaViolation]
    );
    assert_eq!(
        codes("@nost 2\nschema S {\n name: string,\n}\nnode a: S {\n name: 42,\n}\n"),
        vec![DiagnosticCode::NostSchemaViolation]
    );
}

#[test]
fn an_optional_field_may_be_omitted_and_a_schema_is_open() {
    assert!(
        codes("@nost 2\nschema S {\n name?: string,\n}\nnode a: S {\n extra: 1,\n}\n")
            .is_empty()
    );
}

#[test]
fn an_array_field_checks_every_element() {
    assert!(
        codes("@nost 2\nschema S {\n t: string[],\n}\nnode a: S {\n t: [\"x\", \"y\"],\n}\n")
            .is_empty()
    );
    assert_eq!(
        codes("@nost 2\nschema S {\n t: string[],\n}\nnode a: S {\n t: [\"x\", 1],\n}\n"),
        vec![DiagnosticCode::NostSchemaViolation]
    );
    assert_eq!(
        codes("@nost 2\nschema S {\n t: string[],\n}\nnode a: S {\n t: \"x\",\n}\n"),
        vec![DiagnosticCode::NostSchemaViolation]
    );
}

#[test]
fn two_schemas_disagreeing_on_a_field_type_conflict() {
    assert_eq!(
        codes(
            "@nost 2\nschema A {\n k: string,\n}\nschema B {\n k: integer,\n}\nnode n: A, B {\n k: \"x\",\n}\n"
        )
        .into_iter()
        .filter(|code| *code == DiagnosticCode::NostSchemaConflict)
        .count(),
        1
    );
}

#[test]
fn the_stricter_requirement_wins_when_two_schemas_disagree() {
    assert_eq!(
        codes(
            "@nost 2\nschema A {\n k: string,\n}\nschema B {\n k?: string,\n}\nnode n: A, B {}\n"
        ),
        vec![DiagnosticCode::NostSchemaViolation]
    );
}

#[test]
fn an_undeclared_schema_name_is_an_unvalidated_label() {
    assert!(codes("@nost 2\nnode n: NotDeclared {\n anything: 1,\n}\n").is_empty());
}

#[test]
fn reports_an_endpoint_constraint_violation() {
    let source = "@nost 2\nschema A {}\nschema B {}\nschema R (A -> B) {}\n\
        node x: A {}\nnode y: A {}\nedge x -> y :R {}\n";
    assert_eq!(
        codes(source),
        vec![DiagnosticCode::NostSchemaViolation],
        "the target does not carry B"
    );
}

#[test]
fn reports_an_unknown_alias_or_locator_and_an_unresolved_local_endpoint() {
    let base = "@nost 2\nnode a: L {}\n";
    assert_eq!(
        codes(&format!("{base}edge a -> absent::x :R {{}}\n")),
        vec![DiagnosticCode::NostUnknownLinkAlias]
    );
    assert_eq!(
        codes(&format!("{base}edge a -> \"./never\"::x :R {{}}\n")),
        vec![DiagnosticCode::NostUnknownLinkAlias]
    );
    assert_eq!(
        codes(&format!("{base}edge a -> gone :R {{}}\n")),
        vec![DiagnosticCode::NostUnresolvedEndpoint]
    );
}

#[test]
fn an_unresolved_endpoint_and_a_schema_violation_are_only_warnings() {
    let file =
        parse("@nost 2\nschema S {\n k: string,\n}\nnode a: S {}\nedge a -> gone :R {}\n")
            .unwrap();
    let found = validate(&file);
    assert_eq!(found.len(), 2);
    for entry in &found {
        assert_eq!(entry.severity, Severity::Warning, "{entry:?}");
    }
    assert!(!has_errors(&found));
}

#[test]
fn reports_value_rules_including_inside_a_list() {
    let head = "@nost 2\nnode a: L {\n";
    assert_eq!(
        codes(&format!("{head} k: 9223372036854775808,\n}}\n")),
        vec![DiagnosticCode::NostIntegerOutOfRange]
    );
    assert_eq!(
        codes(&format!("{head} k: datetime\"26/07/2026\",\n}}\n")),
        vec![DiagnosticCode::NostInvalidDatetime]
    );
    assert_eq!(
        codes(&format!("{head} confidence_score: 1.5,\n}}\n")),
        vec![DiagnosticCode::NostNonFiniteNumber]
    );
    assert_eq!(
        codes(&format!("{head} k: [1, 9223372036854775808],\n}}\n")),
        vec![DiagnosticCode::NostIntegerOutOfRange]
    );
}

#[test]
fn an_ordinary_float_outside_zero_to_one_is_accepted() {
    assert!(codes("@nost 2\nnode a: L {\n ratio: 7.5,\n}\n").is_empty());
}

#[test]
fn the_labels_key_must_hold_a_list_of_strings() {
    assert!(codes("@nost 2\nnode a: L {\n labels: [\"X\", \"Y\"],\n}\n").is_empty());
    assert_eq!(
        codes("@nost 2\nnode a: L {\n labels: \"X\",\n}\n"),
        vec![DiagnosticCode::NostSchemaViolation]
    );
    assert_eq!(
        codes("@nost 2\nnode a: L {\n labels: [1],\n}\n"),
        vec![DiagnosticCode::NostSchemaViolation]
    );
}

fn evidence(body: &str) -> Vec<DiagnosticCode> {
    codes(&format!(
        "@nost 2\nnode a: L {{\n @by analyzer \"r\" \"1\" {{\n  @evidence {{\n{body}  }}\n }}\n}}\n"
    ))
}

#[test]
fn a_complete_evidence_block_reports_nothing() {
    assert!(
        evidence(
            "   source: \"./\",\n   digest: \"sha256:abcdef0123456789abcdef0123456789\",\n   \
             method: deterministic,\n   confidence: extracted,\n"
        )
        .is_empty()
    );
}

#[test]
fn reports_a_missing_required_evidence_key() {
    let found = evidence("   source: \"./\",\n   method: deterministic,\n");
    assert!(found.contains(&DiagnosticCode::NostInvalidEvidence));
    assert_eq!(
        found
            .iter()
            .filter(|code| **code == DiagnosticCode::NostInvalidEvidence)
            .count(),
        2
    );
}

#[test]
fn reports_an_unknown_evidence_key() {
    let found = evidence(
        "   source: \"./\",\n   digest: \"sha256:abcdef0123456789abcdef0123456789\",\n   \
         method: deterministic,\n   confidence: extracted,\n   nonsense: \"x\",\n",
    );
    assert_eq!(found, vec![DiagnosticCode::NostInvalidEvidence]);
}

#[test]
fn reports_a_confidence_that_breaks_its_own_rules() {
    let base = "   source: \"./\",\n   digest: \"sha256:abcdef0123456789abcdef0123456789\",\n   \
                method: deterministic,\n";
    assert_eq!(
        evidence(&format!("{base}   confidence: extracted(0.5),\n")),
        vec![DiagnosticCode::NostInvalidEvidence]
    );
    assert_eq!(
        evidence(&format!("{base}   confidence: inferred,\n")),
        vec![DiagnosticCode::NostInvalidEvidence]
    );
    assert_eq!(
        evidence(&format!("{base}   confidence: inferred(1.5),\n")),
        vec![DiagnosticCode::NostInvalidEvidence]
    );
    assert_eq!(
        evidence(&format!("{base}   confidence: certain,\n")),
        vec![DiagnosticCode::NostInvalidEvidence]
    );
    assert!(evidence(&format!("{base}   confidence: ambiguous(0.4),\n")).is_empty());
}

#[test]
fn reports_a_method_that_is_not_one_of_the_three() {
    let found = evidence(
        "   source: \"./\",\n   digest: \"sha256:abcdef0123456789abcdef0123456789\",\n   \
         method: guessed,\n   confidence: extracted,\n",
    );
    assert_eq!(found, vec![DiagnosticCode::NostInvalidEvidence]);
}

#[test]
fn only_a_user_contribution_may_omit_evidence() {
    assert!(codes("@nost 2\nnode a: L {\n @by user {}\n}\n").is_empty());
    assert_eq!(
        codes("@nost 2\nnode a: L {\n @by analyzer \"r\" \"1\" {}\n}\n"),
        vec![DiagnosticCode::NostInvalidEvidence]
    );
    assert_eq!(
        codes("@nost 2\nnode a: L {\n @by ai \"sha256:x\" {}\n}\n"),
        vec![DiagnosticCode::NostInvalidEvidence]
    );
}

#[test]
fn a_producer_is_required_when_there_is_no_analyzer_to_inherit_from() {
    let found = codes(
        "@nost 2\nnode a: L {\n @by ai \"sha256:x\" {\n  @evidence {\n   source: \"./\",\n   \
         digest: \"sha256:abcdef0123456789abcdef0123456789\",\n   method: ai_inferred,\n   \
         confidence: inferred(0.5),\n  }\n }\n}\n",
    );
    assert_eq!(
        found
            .iter()
            .filter(|code| **code == DiagnosticCode::NostInvalidEvidence)
            .count(),
        2,
        "producer and producer_version are both required"
    );
}

#[test]
fn a_malformed_source_unit_is_reported() {
    assert_eq!(
        codes("@nost 2\nnode a: L {\n @by user unit \"u_1\" {}\n}\n"),
        vec![DiagnosticCode::NostInvalidEvidence]
    );
}

#[test]
fn every_diagnostic_carries_a_range() {
    let file = parse("@nost 999\n@link \"./a\"\n@link \"./a\"\n").unwrap();
    let found = validate(&file);
    assert!(found.len() >= 2);
    for entry in found {
        assert!(entry.range.is_some());
    }
}
