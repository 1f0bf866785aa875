use nostdb_core::graph::Graph;
use nostdb_core::packet::MAX_EVIDENCE_SPANS;
use nostdb_core::packet::MAX_EXCERPT_BYTES;
use nostdb_core::packet::SourceExcerpt;
use nostdb_core::evidence::SourcePosition;
use nostdb_core::evidence::SourceRange;
use nostdb_core::id::SourceUnitId;
use nostdb_core::packet::build;

fn excerpt(text: &str) -> SourceExcerpt {
    SourceExcerpt {
        path: "src/a.rs".to_owned(),
        range: SourceRange::new(
            SourcePosition {
                line: 1,
                column: 1,
                offset: 0,
            },
            SourcePosition {
                line: 2,
                column: 1,
                offset: 10,
            },
        )
        .expect("a range"),
        text: text.to_owned(),
        truncated: false,
    }
}

#[test]
fn an_excerpt_is_cut_and_says_that_it_was() {
    let long = "x".repeat(MAX_EXCERPT_BYTES * 2);
    let packet = build(&Graph::default(), SourceUnitId::query(), &[excerpt(&long)]);
    let span = &packet.selected_evidence_spans[0];
    assert_eq!(span.text.len(), MAX_EXCERPT_BYTES);
    assert!(span.truncated);

    let short = build(
        &Graph::default(),
        SourceUnitId::query(),
        &[excerpt("fn a() {}")],
    );
    assert!(!short.selected_evidence_spans[0].truncated);
}

#[test]
fn an_excerpt_is_cut_on_a_character_boundary() {
    let long = "é".repeat(MAX_EXCERPT_BYTES);
    let packet = build(&Graph::default(), SourceUnitId::query(), &[excerpt(&long)]);
    let span = &packet.selected_evidence_spans[0];
    assert!(span.text.len() <= MAX_EXCERPT_BYTES);
    assert!(
        span.text.chars().all(|c| c == 'é'),
        "the cut split a scalar"
    );
}

#[test]
fn the_number_of_excerpts_is_bounded_too() {
    let many: Vec<SourceExcerpt> = (0..MAX_EVIDENCE_SPANS + 10)
        .map(|n| excerpt(&format!("fn f{n}() {{}}")))
        .collect();
    let packet = build(&Graph::default(), SourceUnitId::query(), &many);
    assert_eq!(packet.selected_evidence_spans.len(), MAX_EVIDENCE_SPANS);
}

#[test]
fn a_unit_an_analyzer_covered_completely_is_not_worth_sending() {
    let empty = build(&Graph::default(), SourceUnitId::query(), &[]);
    assert!(!empty.is_worth_sending());
    assert_eq!(empty.record_count(), 0);
}

#[test]
fn the_size_a_budget_uses_is_the_size_of_what_would_be_sent() {
    let packet = build(
        &Graph::default(),
        SourceUnitId::query(),
        &[excerpt("fn a() {}"), excerpt("fn b() {}")],
    );
    assert_eq!(packet.record_count(), 2);
    assert_eq!(packet.content_bytes(), "fn a() {}".len() * 2);
}

