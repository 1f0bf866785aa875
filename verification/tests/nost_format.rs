use nostdb_core::nost::parser::parse;

fn round_trip(source: &str) -> String {
    nostdb_core::nost::format::format(&parse(source).expect("must parse"))
}

#[test]
fn formatting_is_idempotent() {
    for source in [
        "@nost 3\n",
        "@nost 3\n@link \"./b\"\n@link \"./a\" as a\n",
        "@nost 3\nschema L {\n b?: integer,\n a: string,\n}\nnode z: B, A {\n k: 1,\n}\nnode a: L {}\nedge a -> z :R {\n q: [1, 2],\n}\n",
        "// lead\n@nost 3 // trail\n\n// about\nnode n: L {\n // key\n k: \"v\", // after\n}\n",
        "@nost 3\nnode n: L {\n k: 1,\n\n @by \"r\" unit \"u_1\" {\n  @evidence {\n   source: \"./\",\n   confidence: inferred(0.5),\n  }\n }\n\n @by \"user\" {}\n}\n",
    ] {
        let once = round_trip(source);
        let twice = round_trip(&once);
        assert_eq!(once, twice, "not idempotent for:\n{source}\ngave:\n{once}");
    }
}

#[test]
fn output_is_sorted_deterministically() {
    let formatted = round_trip(
        "@nost 3\n@link \"./z\"\n@link \"./a\"\nnode z: L {}\nnode a: L {}\nschema L {}\n",
    );
    assert!(formatted.find("\"./a\"").unwrap() < formatted.find("\"./z\"").unwrap());
    assert!(formatted.find("node a").unwrap() < formatted.find("node z").unwrap());
    assert!(formatted.find("schema L").unwrap() < formatted.find("node a").unwrap());
}

#[test]
fn schema_names_and_keys_are_sorted_and_nodes_precede_edges() {
    let formatted =
        round_trip("@nost 3\nedge a -> a :R {}\nnode a: Zed, Alpha {\n zz: 1,\n aa: 2,\n}\n");
    assert!(formatted.contains("node a: Alpha, Zed"), "{formatted}");
    assert!(formatted.find("aa: 2").unwrap() < formatted.find("zz: 1").unwrap());
    assert!(formatted.find("node a").unwrap() < formatted.find("edge a").unwrap());
}

#[test]
fn edges_sort_by_endpoints_then_relation_then_identifier() {
    let formatted =
        round_trip("@nost 3\nedge b -> a :R {}\nedge a -> b :Z {}\nedge a -> b :A {}\n");
    let first = formatted.find("edge a -> b :A").unwrap();
    let second = formatted.find("edge a -> b :Z").unwrap();
    let third = formatted.find("edge b -> a :R").unwrap();
    assert!(first < second && second < third, "{formatted}");
}

#[test]
fn properties_are_comma_separated_with_no_trailing_comma() {
    let formatted = round_trip("@nost 3\nnode n: L {\n a: 1,\n b: 2,\n}\n");
    assert!(formatted.contains("a: 1,\n"), "{formatted}");
    assert!(formatted.contains("b: 2\n"), "{formatted}");
    assert!(!formatted.contains("b: 2,"), "{formatted}");
}

#[test]
fn an_optional_field_keeps_its_question_mark() {
    let formatted = round_trip("@nost 3\nschema S {\n a?: string[],\n b: integer,\n}\n");
    assert!(formatted.contains("a?: string[],"), "{formatted}");
    assert!(formatted.contains("b: integer\n"), "{formatted}");
}

#[test]
fn an_endpoint_constraint_is_reproduced() {
    let formatted = round_trip("@nost 3\nschema R (A -> B) {\n s?: datetime,\n}\n");
    assert!(formatted.contains("schema R (A -> B) {"), "{formatted}");
}

#[test]
fn an_empty_block_is_written_as_braces() {
    let formatted = round_trip("@nost 3\nnode a: L {\n}\nschema L {\n}\n");
    assert!(formatted.contains("node a: L {}"), "{formatted}");
    assert!(formatted.contains("schema L {}"), "{formatted}");
}

#[test]
fn contributions_sort_analyzer_then_ai_then_user() {
    let formatted = round_trip(
        "@nost 3\nnode n: L {\n @by \"user\" {}\n @by \"ai:sha256:a\" {}\n @by \"z\" {}\n @by \"a\" {}\n}\n",
    );
    let analyzer_a = formatted.find("@by \"a\"").unwrap();
    let analyzer_z = formatted.find("@by \"z\"").unwrap();
    let ai = formatted.find("@by \"ai:sha256:a\"").unwrap();
    let user = formatted.find("@by \"user\"").unwrap();
    assert!(analyzer_a < analyzer_z, "{formatted}");
    assert!(analyzer_z < ai, "{formatted}");
    assert!(ai < user, "{formatted}");
}

#[test]
fn every_comment_survives_a_round_trip() {
    let source = "// one\n@nost 3 // two\n\n// three\n@link \"./a\"\n\n\
        // four\nnode n: L { // five\n k: 1, // six\n // seven\n}\n\n// eight\n";
    let parsed = parse(source).unwrap();
    let before = parsed.all_comments().len();
    assert_eq!(before, 8, "the fixture should carry eight comments");

    let formatted = nostdb_core::nost::format::format(&parsed);
    let reparsed = parse(&formatted).expect("formatted output must parse");
    assert_eq!(reparsed.all_comments().len(), before, "{formatted}");
    assert_eq!(nostdb_core::nost::format::format(&reparsed), formatted);
}

#[test]
fn a_comment_inside_a_contribution_survives() {
    let source = "@nost 3\nnode n: L {\n @by \"user\" { // owner\n  // inside\n }\n}\n";
    let parsed = parse(source).unwrap();
    assert_eq!(parsed.all_comments().len(), 2);
    let formatted = nostdb_core::nost::format::format(&parsed);
    let reparsed = parse(&formatted).expect("formatted output must parse");
    assert_eq!(reparsed.all_comments().len(), 2, "{formatted}");
    assert_eq!(nostdb_core::nost::format::format(&reparsed), formatted);
}

#[test]
fn a_number_is_normalized_when_it_can_be_read() {
    let formatted = round_trip("@nost 3\nnode a: L {\n i: 007,\n f: 2E+1,\n}\n");
    assert!(formatted.contains("i: 7"), "{formatted}");
    assert!(formatted.contains("f: 20.0"), "{formatted}");
}

#[test]
fn an_unreadable_number_is_left_exactly_as_written() {
    let formatted = round_trip("@nost 3\nnode a: L {\n i: 9223372036854775808,\n}\n");
    assert!(formatted.contains("i: 9223372036854775808"), "{formatted}");
}

#[test]
fn bytes_digits_are_lower_cased_and_strings_are_re_escaped() {
    let formatted =
        round_trip("@nost 3\nnode a: L {\n b: bytes\"DEADbeef\",\n s: \"tab\\there\",\n}\n");
    assert!(formatted.contains("bytes\"deadbeef\""), "{formatted}");
    assert!(formatted.contains("\"tab\\there\""), "{formatted}");
}

#[test]
fn the_file_ends_with_exactly_one_newline() {
    for source in ["@nost 3\n", "@nost 3\nnode a: L {}\n"] {
        let formatted = round_trip(source);
        assert!(formatted.ends_with('\n'));
        assert!(!formatted.ends_with("\n\n"), "{formatted:?}");
    }
}

#[test]
fn listed_labels_are_sorted_and_other_lists_are_left_alone() {
    let formatted = round_trip(
        "@nost 3\nnode a: Zed, Alpha {\n labels: [\"b\", \"a\", \"B\"],\n tags: [\"z\", \"y\"],\n}\n\
         node b: L {\n labels: [2, 1],\n}\n",
    );
    assert!(formatted.contains("node a: Alpha, Zed {"), "{formatted}");
    assert!(formatted.contains("labels: [\"B\", \"a\", \"b\"]"), "{formatted}");
    assert!(formatted.contains("tags: [\"z\", \"y\"]"), "{formatted}");
    assert!(formatted.contains("labels: [2, 1]"), "{formatted}");
    assert_eq!(round_trip(&formatted), formatted);
}
