use nostdb_core::decimal::parse_double;
use nostdb_core::generation::Generation;
use nostdb_core::generation::GenerationError;
use nostdb_core::id::IdError;
use nostdb_core::id::LocalEdgeId;
use nostdb_core::id::LocalNodeId;
use nostdb_core::id::Minter;
use nostdb_core::id::SourceUnitId;
use nostdb_core::ignore::glob;
use nostdb_core::ignore::IgnoreFile;
use nostdb_core::ignore::IgnoreStack;
use nostdb_core::journal::encode_transaction;
use nostdb_core::journal::replay;
use nostdb_core::journal::staging_name;
use nostdb_core::journal::step;
use nostdb_core::journal::subject;
use nostdb_core::journal::FileStep;
use nostdb_core::journal::FileTransaction;
use nostdb_core::journal::JournalRecord;
use nostdb_core::name::Label;
use nostdb_core::name::NameError;
use nostdb_core::nost::convert::to_graph;
use nostdb_core::nost::export::from_graph;
use nostdb_core::nost::lexer::can_be_counted;
use nostdb_core::nost::lexer::tokenize;
use nostdb_core::nost::lexer::TokenKind;
use nostdb_core::nost::parser::parse;
use nostdb_core::property::DateTime;
use nostdb_core::property::FiniteF64;
use nostdb_core::evidence::ContentDigest;
use nostdb_core::evidence::RangeError;
use nostdb_core::evidence::Score;
use nostdb_core::evidence::SourcePosition;
use nostdb_core::evidence::SourceRange;
use nostdb_core::shortest::show_plain;
use nostdb_core::shortest::show_double;
use nostdb_core::text::NonEmptyText;
use nostdb_core::unicode::is_control;
use nostdb_core::unicode::is_white_space;
use nostdb_core::value::Scoped;

fn formatted(source: &str) -> String {
    nostdb_core::nost::format::format(&parse(source).expect("must parse"))
}

// -- Numbers -----------------------------------------------------------------------

#[test]
fn a_number_is_read_as_the_nearest_double() {
    for text in [
        "0.0", "-0.0", "1.5", "0.1", "1e22", "1e23", "9007199254740993", "123456789012345680000",
        "5e-324", "2.4e-324", "2.5e-324", "1.7976931348623157e308", "1.8e308", "4.35", "0.3",
        "2.2250738585072014e-308", "-17.25e-3",
    ] {
        let expected: f64 = text.parse().unwrap();
        assert_eq!(
            parse_double(text),
            Some(expected.to_bits()),
            "{text} is {expected}"
        );
    }
    for text in ["", ".", "1e", "e5", "0x10", "1_0", " 1", "1 "] {
        assert_eq!(parse_double(text), text.parse::<f64>().ok().map(f64::to_bits), "{text}");
    }
}

#[test]
fn a_number_is_written_as_the_shortest_that_reads_back() {
    let mut bits: u64 = 0x3ff0_0000_0000_0000;
    for round in 0..200_u64 {
        let number = f64::from_bits(bits);
        if number.is_finite() {
            let text = show_double(bits);
            assert_eq!(text, format!("{number:?}"));
            assert_eq!(parse_double(&text), Some(bits));
        }
        bits = bits
            .wrapping_mul(6_364_136_223_846_793_005)
            .wrapping_add(1_442_695_040_888_963_407 + round);
    }
    for number in [0.0, -0.0, 1.0, 0.1, 1e16, 1e15, 123456.75, 5e-324, f64::MAX, 1e-5, 0.0001] {
        assert_eq!(show_double(f64::to_bits(number)), format!("{number:?}"));
        assert_eq!(show_plain(f64::to_bits(number)), format!("{number}"));
    }
}

#[test]
fn a_double_that_is_not_finite_is_refused() {
    assert!(FiniteF64::new(f64::NAN.to_bits()).is_err());
    assert!(FiniteF64::new(f64::INFINITY.to_bits()).is_err());
    assert_eq!(FiniteF64::new(1.5_f64.to_bits()).unwrap().get(), 1.5_f64.to_bits());
}

#[test]
fn a_score_lies_between_zero_and_one() {
    assert!(Score::new(0.0_f32.to_bits()).is_ok());
    assert!(Score::new(1.0_f32.to_bits()).is_ok());
    assert!(Score::new(1.0001_f32.to_bits()).is_err());
    assert!(Score::new((-0.5_f32).to_bits()).is_err());
    assert!(Score::new(f32::NAN.to_bits()).is_err());
    assert_eq!(
        Score::new(0.1_f32.to_bits()).unwrap().wide(),
        f64::from(0.1_f32).to_bits()
    );
}

// -- Characters --------------------------------------------------------------------

#[test]
fn the_character_classes_are_those_of_the_standard_library() {
    for code in 0..0x11_0000_u32 {
        if let Some(c) = char::from_u32(code) {
            assert_eq!(is_white_space(c), c.is_whitespace(), "{code:x}");
            assert_eq!(is_control(c), c.is_control(), "{code:x}");
        }
    }
}

#[test]
fn a_name_starts_and_goes_on_as_unicode_says() {
    assert!(Label::new("\u{3b1}\u{3b2}2_").is_ok());
    assert_eq!(
        Label::new("\u{300}a"),
        Err(NameError::InvalidStart { found: '\u{300}' })
    );
    assert!(Label::new("a\u{300}").is_ok());
    assert!(Label::new("a\u{20ac}").is_err());
}

#[test]
fn an_escape_stands_for_its_scalar_value() {
    let tokens = tokenize("\"\\u{41}\\u{1F600}\\n\\\"\"").unwrap();
    assert_eq!(tokens[0].kind, TokenKind::StringLiteral);
    assert_eq!(tokens[0].text, "A\u{1F600}\n\"");
    for source in ["\"\\u{D800}\"", "\"\\u{110000}\"", "\"\\u{}\"", "\"\\u{FFFFFFFFF}\"", "\"\\q\""] {
        assert!(tokenize(source).is_err(), "{source}");
    }
}

#[test]
fn a_character_that_cannot_stand_is_named() {
    let error = tokenize("\u{7f}").unwrap_err();
    assert!(error.message.contains("'\\u{7f}'"), "{}", error.message);
}

// -- Identifiers -------------------------------------------------------------------

#[test]
fn an_identifier_that_is_written_reads_back() {
    let id = LocalNodeId::from_bytes([7, 0, 255, 16, 3, 4, 5, 6, 7, 8, 9, 10, 11, 12, 13, 14]);
    assert_eq!(LocalNodeId::from_str(&id.to_string()), Ok(id));
    let edge = LocalEdgeId::from_bytes([9; 16]);
    assert_eq!(LocalEdgeId::from_str(&edge.to_string()), Ok(edge));
    let unit = SourceUnitId::from_bytes([1; 16]);
    assert_eq!(SourceUnitId::from_str(&unit.to_string()), Ok(unit));
    assert!(matches!(
        LocalNodeId::from_str(&edge.to_string()),
        Err(IdError::MissingPrefix { .. })
    ));
}

#[test]
fn fresh_identifiers_are_of_version_seven_and_differ() {
    let mut minter = Minter::new();
    let first = minter.node();
    let second = minter.node();
    assert_ne!(first, second);
    for id in [first, second] {
        assert_eq!(id.to_bytes()[6] >> 4, 7);
        assert_eq!(id.to_bytes()[8] >> 6, 2);
    }
    assert_eq!(minter.issued(), 2);
}

#[test]
fn sequential_identifiers_repeat_for_a_generation_and_differ_within_it() {
    let mut one = Minter::sequential(3);
    let mut other = Minter::sequential(3);
    let mut later = Minter::sequential(4);
    assert_eq!(one.node(), other.node());
    assert_ne!(one.node(), Minter::sequential(3).node());
    assert_ne!(Minter::sequential(3).node(), later.node());
    assert_ne!(SourceUnitId::query().to_bytes(), Minter::new().node().to_bytes());
}

#[test]
fn a_generation_is_followed_by_the_next_until_the_last() {
    assert_eq!(Generation::from_raw(6).next(), Ok(Generation::from_raw(7)));
    assert_eq!(
        Generation::from_raw(u64::MAX).next(),
        Err(GenerationError::Exhausted)
    );
}

// -- Values ------------------------------------------------------------------------

#[test]
fn a_timestamp_is_one_that_can_be() {
    for text in ["2024-02-29T12:00:00Z", "2023-12-31T23:59:59.5+02:00"] {
        assert_eq!(DateTime::new(text).unwrap().as_str(), text);
    }
    for text in ["2023-02-29T12:00:00Z", "2023-13-01T00:00:00Z", "2023-01-01", "now", ""] {
        assert!(DateTime::new(text).is_err(), "{text}");
    }
}

#[test]
fn a_range_does_not_end_before_it_starts() {
    let at = |line: u32, column: u32, offset: u64| SourcePosition { line, column, offset };
    assert!(SourceRange::new(at(1, 1, 0), at(1, 1, 0)).is_ok());
    assert_eq!(
        SourceRange::new(at(1, 1, 0), at(3, 2, 9)).unwrap().byte_length(),
        9
    );
    assert!(SourceRange::new(at(2, 1, 9), at(1, 1, 0)).is_err());
    assert!(matches!(
        SourceRange::new(at(0, 1, 0), at(1, 1, 0)),
        Err(RangeError::ZeroBased)
    ));
}

#[test]
fn texts_and_digests_hold_something() {
    assert!(NonEmptyText::new("").is_err());
    assert_eq!(NonEmptyText::new("x").unwrap().as_str(), "x");
    assert!(ContentDigest::new("").is_err());
}

// -- Ignoring ----------------------------------------------------------------------

#[test]
fn the_last_rule_that_matches_decides() {
    let mut stack = IgnoreStack::new();
    stack.push(IgnoreFile::parse("*.log\n!keep.log\n", ""));
    assert!(stack.excludes("a.log", false));
    assert!(!stack.excludes("keep.log", false));
    assert!(!stack.excludes("a.txt", false));
    stack.push(IgnoreFile::parse("keep.log\n", "deep"));
    assert!(stack.excludes("deep/keep.log", false));
    assert!(!stack.excludes("keep.log", false));
    stack.truncate(1);
    assert!(!stack.excludes("deep/keep.log", false));
}

#[test]
fn a_glob_crosses_a_directory_only_by_two_stars() {
    assert!(glob("src/*.rs", "src/a.rs"));
    assert!(!glob("src/*.rs", "src/deep/a.rs"));
    assert!(glob("src/**/a.rs", "src/deep/er/a.rs"));
    assert!(glob("a?c", "abc"));
    assert!(!glob("a?c", "a/c"));
}

// -- The journal -------------------------------------------------------------------

#[test]
fn a_transaction_is_recovered_as_it_was_recorded() {
    let mut transaction = FileTransaction::begin("journal", Generation::from_raw(9));
    assert!(transaction.is_empty());
    transaction.stage("a.staged", "a");
    transaction.remove("b");
    assert!(!transaction.is_empty());
    assert_eq!(transaction.journal_path(), "journal");

    let bytes = transaction.journal();
    assert_eq!(bytes, encode_transaction(Generation::from_raw(9), transaction.actions()));
    let recovery = replay(&bytes);
    assert_eq!(recovery.committed_generation(), Some(Generation::from_raw(9)));
    assert!(!recovery.truncated);
    assert!(recovery.abandoned_staged.is_empty());

    let torn = replay(&bytes[..bytes.len() - 1]);
    assert_eq!(torn.committed_generation(), None);
    assert_eq!(torn.abandoned_staged, vec!["a.staged".to_owned()]);
}

#[test]
fn a_path_that_is_not_utf_8_is_not_recovered() {
    let mut bytes = encode_transaction(
        Generation::from_raw(1),
        &[JournalRecord::Remove { path: "\u{e9}".to_owned() }],
    );
    let at = bytes.windows(2).position(|pair| pair == [0xc3, 0xa9]).unwrap();
    bytes[at] = 0xff;
    assert!(replay(&bytes).truncated);
}

#[test]
fn carrying_out_an_action_again_does_nothing() {
    let promote = JournalRecord::Promote {
        staged: "a.staged".to_owned(),
        destination: "a".to_owned(),
    };
    assert_eq!(subject(&promote).as_deref(), Some("a.staged"));
    assert_eq!(
        step(&promote, true),
        FileStep::Rename { from: "a.staged".to_owned(), to: "a".to_owned() }
    );
    assert_eq!(step(&promote, false), FileStep::Nothing);
    let remove = JournalRecord::Remove { path: "b".to_owned() };
    assert_eq!(step(&remove, true), FileStep::Delete { path: "b".to_owned() });
    assert_eq!(step(&remove, false), FileStep::Nothing);
    assert_eq!(step(&JournalRecord::Commit, true), FileStep::Nothing);
    assert_eq!(subject(&JournalRecord::Commit), None);
    assert_eq!(staging_name("root.nostdb"), "root.nostdb.staged");
}

// -- The language ------------------------------------------------------------------

const DOCUMENT: &str = "// about\n@nost 3 // three\n\n@link \"./b\"\n@link \"./a\" as a // linked\n\n\
schema S (A -> B) {\n  z: string[],\n  a?: integer, /* kept */\n}\n\
edge n -> a::m :R {}\n\
node n: Z, A {\n  // first\n  k: [1, -0, 007], // list\n  f: 1.50, b: bytes\"DEAD\", t: datetime\"2024-02-29T12:00:00Z\",\n  \
s: \"tab\\t quote\\\" nul\\u{0} line\\n\",\n\n  @by analyzer \"x\" \"1\" unit \"u\" {\n    @evidence {\n      source: \"./\",\n      confidence: inferred(1),\n    }\n    // last\n  }\n  @by user {}\n  // end\n}\n// bye\n";

#[test]
fn formatting_again_gives_the_same_text() {
    let once = formatted(DOCUMENT);
    assert_eq!(formatted(&once), once);
    assert!(once.contains("k: [1, 0, 7], // list"), "{once}");
    assert!(once.contains("b: bytes\"dead\""), "{once}");
    assert!(once.contains("f: 1.5,"), "{once}");
    assert!(once.contains("confidence: inferred(1.0)"), "{once}");
    assert!(once.contains("s: \"tab\\t quote\\\" nul\\u{0} line\\n\""), "{once}");
}

#[test]
fn a_formatted_file_says_what_it_said() {
    let once = formatted(DOCUMENT);
    let file = parse(&once).unwrap();
    assert_eq!(file.links[0].source.value, "./a");
    assert_eq!(file.links[1].source.value, "./b");
    assert_eq!(file.schemas[0].fields[0].key.value, "a");
    assert_eq!(file.nodes[0].schemas[0].value, "A");
    assert_eq!(file.nodes[0].record.properties.len(), 5);
    assert_eq!(file.nodes[0].record.contributions.len(), 2);
    assert_eq!(file.trailing_comments[0].text, "bye");
    assert_eq!(file.version_comments.leading[0].text, "about");
    assert_eq!(
        file.version_comments.trailing.as_ref().map(|comment| comment.text.as_str()),
        Some("three")
    );
}

#[test]
fn a_comment_at_an_empty_block_trails_it() {
    let text = "@nost 3\n\nnode n: L {} // kept\n";
    assert_eq!(formatted("@nost 3\nnode n: L { // kept\n}\n"), text);
    assert_eq!(formatted(text), text);
    let file = parse(text).unwrap();
    assert_eq!(
        file.nodes[0].record.comments.trailing.as_ref().map(|comment| comment.text.as_str()),
        Some("kept")
    );
    let both = "@nost 3\n\nnode n: L { // one\n  // two\n}\n";
    assert_eq!(formatted("@nost 3\nnode n: L { // one\n} // two\n"), both);
    assert_eq!(formatted(both), both);
}

#[test]
fn a_comment_stays_where_formatting_put_it() {
    for source in [
        "@nost 2\n@link \"./a\" // c\n",
        "@nost 2\n@link \"./a\" // c\n@link \"./b\" /* d */ as b // e\n",
        "@nost 2\nschema S { // c\n}\n",
        "@nost 2\nschema S {\n k: string[] // c\n}\n",
        "@nost 2\nschema S {\n k: string[] /* c */, // d\n l: integer // e\n}\n",
        "@nost 2\nnode n: L { /* c */ } // d\n",
        "@nost 2\nnode n: L {} // d\n// e\n",
        "@nost 2\nnode n: L {\n @by user { // c\n @evidence { // d\n } // e\n }\n}\n",
        "@nost 2\nnode n: L {\n @by user {\n @evidence {\n method: human // c\n }\n }\n}\n",
        "@nost 2\nnode n: L {\n k: 1 /* c */, /* d */ l: 2 // e\n // f\n}\n",
        "@nost 2\nnode n /* c */ : /* d */ L /* e */ { k /* f */ : /* g */ [1, /* h */ 2] /* i */ }\n",
        "@nost /* c */ 2 // d\nedge a /* e */ -> b : /* f */ R /* g */ {}\n",
    ] {
        let once = formatted(source);
        assert_eq!(formatted(&once), once, "{source}");
        assert_eq!(remarks_in(&once), remarks_in(source), "{source}");
    }
}

#[test]
fn a_date_and_time_is_written_as_it_reads_back() {
    for text in ["2024-02-29T12:00:00Z", "a\\\"b", "a\\\\b", "a\\nb", "\\u{0}"] {
        let once = formatted(&format!("@nost 2\nnode n: L {{ t: datetime\"{text}\" }}\n"));
        assert!(once.contains(&format!("t: datetime\"{text}\"")), "{once}");
        assert_eq!(formatted(&once), once);
    }
}

#[test]
fn a_graph_survives_being_written_and_read() {
    let graph = to_graph(&parse("@nost 2\n@link \"./a\" as a\nnode x: L {\n k: 1,\n}\nedge x -> x :R {}\n").unwrap())
        .expect("converts");
    let text = nostdb_core::nost::format::format(&from_graph(&graph));
    let again = to_graph(&parse(&text).expect("parses")).expect("converts again");
    assert_eq!(again, graph);
}

#[test]
fn an_exported_text_is_a_fixed_point() {
    let source = "@nost 2\n@link \"./z\" as z\n@link \"./a\"\n\
         schema Zed {\n b: float,\n a?: string[],\n}\nschema Alpha {\n}\n\
         node one: Zed {\n id: \"n_0198a1b2-c3d4-7e5f-8a9b-0c1d2e3f4a5f\",\n zz: -0.0,\n \
         b: bytes\"0aff\",\n labels: [\"Mid\", \"Alpha\"],\n hh: [1, 2.5, \"q\\\"\"],\n \
         at: datetime\"2024-02-29T23:59:60.5+01:00\",\n \
         @by \"tool\" unit \"u_0198a1b2-c3d4-7e5f-8a9b-0c1d2e3f4a5b\" {\n @evidence {\n \
         source: \"./\",\n digest: \"sha256:abcdef0123456789abcdef0123456789\",\n \
         producer: \"p\",\n producer_version: \"1\",\n method: ai_inferred,\n \
         confidence: inferred(0.1),\n }\n }\n @by user {}\n}\n\
         node two: Alpha {\n id: \"n_0198a1b2-c3d4-7e5f-8a9b-0c1d2e3f4a50\",\n}\n\
         edge two -> one :Z {\n id: \"e_0198a1b2-c3d4-7e5f-8a9b-0c1d2e3f4a51\",\n}\n\
         edge one -> two :A {\n id: \"e_0198a1b2-c3d4-7e5f-8a9b-0c1d2e3f4a52\",\n}\n";
    let graph = to_graph(&parse(source).expect("parses")).expect("converts");
    let text = nostdb_core::nost::format::format(&from_graph(&graph));
    let again = to_graph(&parse(&text).expect("parses again")).expect("converts again");
    assert_eq!(again.nodes, graph.nodes);
    assert_eq!(again.edges, graph.edges);
    assert_eq!(again.schemas, graph.schemas);
    let places: Vec<&str> = again.links.iter().map(|link| link.source.as_str()).collect();
    assert_eq!(places, ["./a", "./z"]);
    assert_eq!(nostdb_core::nost::format::format(&from_graph(&again)), text);
}

#[test]
fn edges_that_share_an_identifier_may_change_places() {
    let source = "@nost 2\nnode a: L {\n id: \"n_0198a1b2-c3d4-7e5f-8a9b-0c1d2e3f4a50\",\n}\n\
         edge a -> a :Z {\n id: \"e_0198a1b2-c3d4-7e5f-8a9b-0c1d2e3f4a51\",\n}\n\
         edge a -> a :A {\n id: \"e_0198a1b2-c3d4-7e5f-8a9b-0c1d2e3f4a51\",\n}\n";
    let graph = to_graph(&parse(source).expect("parses")).expect("converts");
    assert_eq!(graph.edges[0].relation.as_str(), "Z");
    let text = nostdb_core::nost::format::format(&from_graph(&graph));
    let again = to_graph(&parse(&text).expect("parses again")).expect("converts again");
    assert_eq!(again.edges[0].relation.as_str(), "A");
}

fn remarks_in(source: &str) -> Vec<String> {
    let mut found: Vec<String> = tokenize(source)
        .expect("lexes")
        .iter()
        .filter(|token| token.is_comment())
        .map(|token| token.text.clone())
        .collect();
    found.sort();
    found
}

#[test]
fn every_comment_of_a_source_is_in_its_tree_and_in_its_formatted_text() {
    let source = "// a\n@nost 2 // b\n@link /* c */ \"./z\" as z // d\n/* e */\nschema S { // f\n \
         k: /* g */ string, // h\n // i\n}\nnode n /* j */ : S {\n v: [1, /* k */ 2],\n \
         @by user { // l\n  // m\n }\n}\n// n\n";
    let file = parse(source).expect("parses");
    let mut kept: Vec<String> =
        file.all_comments().iter().map(|comment| comment.text.clone()).collect();
    assert_eq!(kept.join(""), "abcdefghijklmn", "in the order of the source");
    kept.sort();
    assert_eq!(remarks_in(source), kept);
    assert_eq!(remarks_in(&nostdb_core::nost::format::format(&file)), kept);
}

#[test]
fn comments_come_in_the_order_of_the_source() {
    for (source, expected) in [
        ("@nost /* c */ 2 // d\n", "cd"),
        ("/* a */ @nost /* b */ 2 /* c */ /* d */\n", "abcd"),
        ("@nost 2\nnode n: L {} // a\n// b\nnode m: L { // c\n // d\n} // e\n// f\n", "abcdef"),
        ("@nost 2\nnode n: L { k: 1 /* a */, /* b */ l: /* c */ 2 /* d */ /* e */ }\n", "abcde"),
        ("@nost 2\n@link \"./a\" /* a */ as /* b */ x // c\n@link \"./b\" // d\n", "abcd"),
        (
            "@nost 2\nedge n -> m :R { @by /* a */ user /* b */ { // c\n @evidence /* d */ { // e\n \
             method: /* f */ human // g\n } // h\n } // i\n} // j\n",
            "abcdefghij",
        ),
    ] {
        let file = parse(source).expect(source);
        let found: Vec<String> =
            file.all_comments().iter().map(|comment| comment.text.clone()).collect();
        assert_eq!(found.join(""), expected, "{source}");
    }
}

#[test]
fn the_key_of_a_record_orders_by_source_and_tells_records_apart() {
    let one = LocalNodeId::from_bytes([1; 16]);
    let two = LocalNodeId::from_bytes([2; 16]);
    let far = Scoped { source: 10, id: one };
    let near = Scoped { source: 9, id: two };
    assert!(near.sort_key() < far.sort_key());
    assert_ne!(Scoped::root(one).sort_key(), Scoped::root(two).sort_key());
    assert_ne!(far.sort_key(), Scoped { source: 9, id: one }.sort_key());
    assert_eq!(
        Scoped { source: 4_294_967_295, id: LocalEdgeId::from_bytes([0; 16]) }.sort_key(),
        "4294967295:e_00000000-0000-0000-0000-000000000000"
    );
}

#[test]
fn an_ordinary_source_can_be_counted() {
    assert!(can_be_counted("@nost 2\n\u{1F600}\n"));
    assert!(can_be_counted(""));
}

#[test]
fn a_formatted_text_ends_with_one_line_break() {
    for source in [
        "@nost 2",
        "@nost 2\n\n\n",
        "@nost 2\n@link \"./a\" as a\n",
        "@nost 2\nschema S {}\n\n",
        "@nost 2\nnode n: L {}",
        "@nost 2\nedge a -> b :R { k: 1 }",
        "@nost 2\n/* last\n */\n\n",
        DOCUMENT,
    ] {
        let text = formatted(source);
        assert!(text.ends_with('\n') && !text.ends_with("\n\n"), "{text:?}");
    }
}
