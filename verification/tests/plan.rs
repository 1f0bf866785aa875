use nostdb_core::plan::AiBudget;
use nostdb_core::settings::AiMode;
use nostdb_core::settings::AnalysisSettings;
use nostdb_core::analysis::AnalyzerCapability;
use nostdb_core::settings::BudgetAction;
use nostdb_core::plan::BudgetCheck;
use nostdb_core::locator::CanonicalSourceLocator;
use nostdb_core::analysis::CapabilityRegistry;
use nostdb_core::evidence::ContentDigest;
use nostdb_core::analysis::FactKind;
use nostdb_core::text::NonEmptyText;
use nostdb_core::plan::PlanReport;
use nostdb_core::analysis::PrecisionClass;
use nostdb_core::scan::Scan;
use nostdb_core::scan::ScannedFile;
use nostdb_core::scan::SkipReason;
use nostdb_core::scan::SkippedSource;
use nostdb_core::plan::TokenRange;
use nostdb_core::plan::estimate_input;
use nostdb_core::plan::estimate_output;
use nostdb_core::plan::plan;
use nostdb_core::plan::revision_material;
use nostdb_core::plan::source_revision;

fn file(path: &str, language: &str, bytes: u64) -> ScannedFile {
    ScannedFile {
        path: path.to_owned(),
        language: language.to_owned(),
        bytes,
        digest: digest_bytes(path.as_bytes()),
    }
}

fn scanned(files: Vec<ScannedFile>) -> Scan {
    Scan {
        files,
        skipped: Vec::new(),
    }
}

fn registry_with(language: &str, precision: PrecisionClass) -> CapabilityRegistry {
    let mut registry = CapabilityRegistry::new();
    registry.register(AnalyzerCapability {
        language: NonEmptyText::new(language).unwrap(),
        precision,
        facts: vec![FactKind::Function],
    });
    registry
}

fn settings() -> AnalysisSettings {
    AnalysisSettings {
        ai_mode: AiMode::Auto,
        max_input_tokens: None,
        max_output_tokens: None,
        max_cost_usd: None,
        on_budget_exceeded: BudgetAction::Ask,
    }
}

#[test]
fn an_empty_scan_plans_nothing_and_spends_nothing() {
    let report = planned(
        &scanned(Vec::new()),
        &CapabilityRegistry::new(),
        &settings(),
    );
    assert_eq!(report.plan.scanned_files, 0);
    assert_eq!(report.plan.semantic_candidates, 0);
    assert_eq!(report.plan.estimated_input_tokens, TokenRange::zero());
    assert!(!report.plan.spends_tokens());
    assert!(report.plan.within_budget().fits());
}

#[test]
fn a_language_with_no_analyzer_is_unsupported_and_eligible_for_ai() {
    let scan = scanned(vec![file("a.py", "python", 6000)]);
    let report = planned(&scan, &CapabilityRegistry::new(), &settings());
    assert_eq!(report.plan.structural_files, 0);
    assert_eq!(report.plan.unsupported_files, 1);
    assert_eq!(report.plan.semantic_candidates, 1);
    assert!(report.plan.spends_tokens());
    assert_eq!(report.languages[0].precision, PrecisionClass::Unsupported);
}

#[test]
fn a_deterministic_analyzer_covers_a_file_without_spending_a_token() {
    let scan = scanned(vec![file("a.rs", "rust", 6000)]);
    let registry = registry_with("rust", PrecisionClass::DeterministicSyntactic);
    let report = planned(&scan, &registry, &settings());
    assert_eq!(report.plan.structural_files, 1);
    assert_eq!(report.plan.unsupported_files, 0);
    assert_eq!(report.plan.semantic_candidates, 0);
    assert_eq!(report.plan.estimated_input_tokens, TokenRange::zero());
}

#[test]
fn a_heuristic_analyzer_covers_a_file_and_still_leaves_it_worth_enriching() {
    let scan = scanned(vec![file("a.rb", "ruby", 6000)]);
    let registry = registry_with("ruby", PrecisionClass::Heuristic);
    let report = planned(&scan, &registry, &settings());
    assert_eq!(
        report.plan.structural_files, 0,
        "heuristic is not deterministic"
    );
    assert_eq!(
        report.plan.unsupported_files, 0,
        "an analyzer exists, so it is not unsupported"
    );
    assert_eq!(
        report.plan.semantic_candidates, 1,
        "enrichment exists to improve exactly this case"
    );
}

#[test]
fn asking_for_ai_instead_of_the_analyzers_counts_every_file() {
    let scan = scanned(vec![
        file("a.rs", "rust", 4_000),
        file("b.py", "python", 6_000),
        file("notes.md", "markdown", 2_000),
    ]);
    let registry = builtin_registry();

    let auto = planned(&scan, &registry, &settings());
    assert_eq!(
        auto.plan.semantic_candidates, 1,
        "by default AI reads what an analyzer could not: the Markdown, and neither of the other two"
    );

    let full = planned(
        &scan,
        &registry,
        &AnalysisSettings {
            ai_mode: AiMode::Full,
            ..settings()
        },
    );
    assert_eq!(
        full.plan.semantic_candidates, 3,
        "asked for AI instead of the analyzers, it reads the whole tree"
    );
    assert!(
        full.plan.estimated_input_tokens.low > auto.plan.estimated_input_tokens.low,
        "and the estimate covers what it reads: {:?} against {:?}",
        full.plan.estimated_input_tokens,
        auto.plan.estimated_input_tokens
    );
    assert_eq!(full.plan.structural_files, auto.plan.structural_files);
    assert_eq!(full.plan.unsupported_files, auto.plan.unsupported_files);
}

#[test]
fn turning_ai_off_spends_nothing_while_still_counting_what_could_be_enriched() {
    let scan = scanned(vec![file("a.py", "python", 60_000)]);
    let analysis = AnalysisSettings {
        ai_mode: AiMode::Off,
        ..settings()
    };
    let report = planned(&scan, &CapabilityRegistry::new(), &analysis);
    assert_eq!(
        report.plan.semantic_candidates, 1,
        "what could be enriched is a fact about the source"
    );
    assert_eq!(
        report.plan.estimated_input_tokens,
        TokenRange::zero(),
        "what this run spends is a different question"
    );
}

#[test]
fn the_estimate_is_a_band_and_the_budget_check_uses_its_top() {
    let input = estimate_input(60_000, 10);
    assert!(input.low < input.high, "{input:?}");
    assert_eq!(input.low, 60_000 / 6 + 2000);
    assert_eq!(input.high, 60_000 / 2 + 2000);

    let budget = AiBudget {
        max_input_tokens: Some(input.high - 1),
        ..AiBudget::default()
    };
    assert!(!budget.check(input, TokenRange::zero()).fits());

    let generous = AiBudget {
        max_input_tokens: Some(input.high),
        ..AiBudget::default()
    };
    assert!(
        generous.check(input, TokenRange::zero()).fits(),
        "a limit exactly at the estimate is not exceeded"
    );
}

#[test]
fn an_output_ceiling_is_checked_as_well_as_an_input_one() {
    let output = estimate_output(100);
    let budget = AiBudget {
        max_output_tokens: Some(output.high - 1),
        ..AiBudget::default()
    };
    let check = budget.check(TokenRange::zero(), output);
    assert!(matches!(
        check,
        BudgetCheck::Exceeds {
            field: "max_output_tokens",
            ..
        }
    ));
    assert!(
        check.to_string().contains("max_output_tokens"),
        "{}",
        check.to_string()
    );
}

#[test]
fn a_zero_ceiling_permits_no_work_at_all() {
    let budget = AiBudget {
        max_input_tokens: Some(0),
        ..AiBudget::default()
    };
    assert!(budget.has_hard_limit());
    assert!(
        !budget
            .check(estimate_input(100, 1), TokenRange::zero())
            .fits()
    );
    assert!(budget.check(TokenRange::zero(), TokenRange::zero()).fits());
}

#[test]
fn no_configured_ceiling_is_not_the_same_as_a_ceiling_of_zero() {
    let unlimited = AiBudget::default();
    assert!(!unlimited.has_hard_limit());
    assert!(
        unlimited
            .check(estimate_input(1_000_000, 100), TokenRange::zero())
            .fits()
    );
}

#[test]
fn the_revision_follows_the_bytes_and_not_the_order_they_were_found_in() {
    let one = scanned(vec![file("a.rs", "rust", 10), file("b.rs", "rust", 20)]);
    let same = scanned(vec![file("a.rs", "rust", 10), file("b.rs", "rust", 20)]);
    assert_eq!(revision_of(&one), revision_of(&same));

    let changed = scanned(vec![file("a.rs", "rust", 10), file("c.rs", "rust", 20)]);
    assert_ne!(
        revision_of(&one),
        revision_of(&changed),
        "a different path is a different snapshot"
    );
    assert!(
        revision_of(&one).starts_with("tree:"),
        "a content-derived revision must never be mistaken for a commit"
    );
}

#[test]
fn a_language_summary_reports_each_language_once_in_name_order() {
    let scan = scanned(vec![
        file("a.rs", "rust", 100),
        file("b.py", "python", 200),
        file("c.rs", "rust", 300),
    ]);
    let registry = registry_with("rust", PrecisionClass::DeterministicSyntactic);
    let report = planned(&scan, &registry, &settings());
    assert_eq!(report.languages.len(), 2);
    assert_eq!(report.languages[0].language, "python");
    assert_eq!(report.languages[1].language, "rust");
    assert_eq!(report.languages[1].files, 2);
    assert_eq!(report.languages[1].bytes, 400);
}

#[test]
fn exclusions_are_carried_into_the_report_grouped_by_reason() {
    let locator = CanonicalSourceLocator::new(".").unwrap();
    let skip = |path: &str, reason: SkipReason| SkippedSource {
        source: locator.clone(),
        path: NonEmptyText::new(path).ok(),
        reason,
    };
    let scan = Scan {
        files: vec![file("a.rs", "rust", 100)],
        skipped: vec![
            skip("x.log", SkipReason::Ignored),
            skip("y.log", SkipReason::Ignored),
            skip(".env", SkipReason::Sensitive),
        ],
    };
    let report = planned(&scan, &CapabilityRegistry::new(), &settings());
    assert_eq!(
        report.skipped,
        vec![(SkipReason::Ignored, 2), (SkipReason::Sensitive, 1)]
    );
    assert_eq!(report.skipped_files(), 3);
}

#[test]
fn a_cache_hit_is_never_claimed_before_a_cache_exists() {
    let scan = scanned(vec![file("a.py", "python", 6000)]);
    let report = planned(&scan, &CapabilityRegistry::new(), &settings());
    assert_eq!(report.plan.semantic_cache_hits, 0);
}

#[test]
fn a_range_renders_one_number_when_both_ends_agree() {
    assert_eq!(TokenRange::new(5, 5).to_string(), "5");
    assert_eq!(TokenRange::new(5, 9).to_string(), "5–9");
    assert_eq!(
        TokenRange::new(9, 5),
        TokenRange::new(5, 9),
        "the ends are ordered rather than trusted"
    );
}

/// A digest for these tests: the FNV-1a hash, in hexadecimal.
fn digest_bytes(bytes: &[u8]) -> ContentDigest {
    let mut hash: u64 = 0xcbf2_9ce4_8422_2325;
    for byte in bytes {
        hash = (hash ^ u64::from(*byte)).wrapping_mul(0x0000_0100_0000_01b3);
    }
    ContentDigest::new(&format!("fnv1a:{hash:016x}{hash:016x}")).unwrap()
}

fn revision_of(scan: &Scan) -> String {
    source_revision(scan, digest_bytes)
}

fn planned(scan: &Scan, registry: &CapabilityRegistry, analysis: &AnalysisSettings) -> PlanReport {
    plan(scan, registry, analysis, digest_bytes)
}

fn builtin_registry() -> CapabilityRegistry {
    let mut registry = registry_with("rust", PrecisionClass::DeterministicSyntactic);
    registry.register(AnalyzerCapability {
        language: NonEmptyText::new("python").unwrap(),
        precision: PrecisionClass::DeterministicSyntactic,
        facts: vec![FactKind::Function],
    });
    registry
}

#[test]
fn the_material_of_a_revision_is_every_path_with_its_digest() {
    let one = scanned(vec![file("a", "rust", 1), file("b", "rust", 2)]);
    let mut expected: Vec<u8> = Vec::new();
    for entry in &one.files {
        expected.extend(entry.path.as_bytes());
        expected.push(0);
        expected.extend(entry.digest.as_str().as_bytes());
        expected.push(10);
    }
    assert_eq!(revision_material(&one), expected);
    let other = scanned(vec![file("ab", "rust", 1), file("b", "rust", 2)]);
    assert_ne!(revision_material(&other), expected);
}

fn skipped(reason: SkipReason) -> SkippedSource {
    SkippedSource {
        source: CanonicalSourceLocator::new(".").unwrap(),
        path: None,
        reason,
    }
}

#[test]
fn languages_and_reasons_stand_in_order_and_account_for_every_file() {
    let scan = Scan {
        files: vec![
            file("b.rs", "rust", 10),
            file("a.py", "python", 20),
            file("a.rs", "rust", 30),
            file("c.go", "go", 40),
        ],
        skipped: vec![
            skipped(SkipReason::Sensitive),
            skipped(SkipReason::Ignored),
            skipped(SkipReason::Ignored),
        ],
    };
    let report = planned(&scan, &CapabilityRegistry::new(), &settings());
    let languages: Vec<(&str, u64, u64)> = report
        .languages
        .iter()
        .map(|language| (language.language.as_str(), language.files, language.bytes))
        .collect();
    assert_eq!(languages, [("go", 1, 40), ("python", 1, 20), ("rust", 2, 40)]);
    assert_eq!(report.skipped, [(SkipReason::Ignored, 2), (SkipReason::Sensitive, 1)]);
    assert_eq!(report.skipped_files(), 3);
}

#[test]
fn with_ai_off_a_plan_names_the_candidates_it_would_have() {
    let scan = scanned(vec![file("a.rs", "rust", 10), file("b.py", "python", 20)]);
    let registry = registry_with("rust", PrecisionClass::DeterministicSyntactic);
    let off = AnalysisSettings { ai_mode: AiMode::Off, ..settings() };
    assert_eq!(
        planned(&scan, &registry, &off).plan.semantic_candidates,
        planned(&scan, &registry, &settings()).plan.semantic_candidates
    );
    assert!(!planned(&scan, &registry, &off).plan.spends_tokens());
}

#[test]
fn the_revision_of_a_tree_depends_on_its_paths_and_digests_alone() {
    let one = scanned(vec![file("a.rs", "rust", 10), file("b.rs", "rust", 20)]);
    let two = scanned(vec![file("a.rs", "text", 99), file("b.rs", "go", 1)]);
    assert_eq!(revision_material(&one), revision_material(&two));
    assert_eq!(revision_of(&one), revision_of(&two));
    let three = scanned(vec![file("b.rs", "rust", 20), file("a.rs", "rust", 10)]);
    assert_ne!(revision_material(&one), revision_material(&three));
    assert_ne!(revision_of(&one), revision_of(&three));
    assert_eq!(
        planned(&one, &CapabilityRegistry::new(), &settings()).plan.source_revision,
        revision_of(&one)
    );
}
