//! What a build would do, decided before it does any of it.
//!
//! A plan is produced from a scan and a capability registry alone, spends nothing, and is
//! what a budget check runs against.
//!
//! # The estimate is wide on purpose
//!
//! Token counts here are a heuristic over byte counts. The budget check uses
//! [`TokenRange::high`], because understating the cost is what lets a run start a call it
//! cannot afford.
//!
//! # What is counted, and what is spent
//!
//! `semantic_candidates` counts the files AI would read. The token estimates describe what
//! this run would spend, which is nothing where [`AiMode::Off`] is configured. In
//! [`AiMode::Auto`] AI reads what the analyzers could not cover; in [`AiMode::Full`] it
//! reads every scanned file.

use crate::analysis::precision_of;
use crate::analysis::CapabilityModel;
use crate::analysis::CapabilityRegistry;
use crate::analysis::PrecisionClass;
use crate::evidence::algorithm_char;
use crate::evidence::algorithm_end;
use crate::evidence::digest_char;
use crate::evidence::valid_digest;
use crate::evidence::ContentDigest;
use crate::number::digits_of;
use crate::number::show_unsigned;
use crate::scan::FileModel;
use crate::scan::Scan;
use crate::scan::ScanModel;
use crate::scan::SkipReason;
use crate::scan::SkippedModel;
use crate::settings::AiMode;
use crate::settings::AnalysisSettings;
use crate::settings::BudgetAction;
use crate::text::is_before;
use crate::text::joined;
use crate::text::precedes;
use crate::text::precedes_total;
use crate::text::precedes_transitive;
use crate::text::same;
use crate::text::view_of;
use crate::text::views;
use vstd::prelude::*;
use vstd::string::StringExecFns;
use vstd::utf8::encode_scalar;
use vstd::utf8::encode_utf8;
use vstd::utf8::encode_utf8_decode_utf8;
use vstd::utf8::has_width_1_encoding;
use vstd::utf8::last_continuation_byte;
use vstd::utf8::leading_byte_width_2;
use vstd::utf8::leading_byte_width_3;
use vstd::utf8::leading_byte_width_4;
use vstd::utf8::second_last_continuation_byte;
use vstd::utf8::third_last_continuation_byte;

verus! {

/// Version of the plan contract.
pub const PLAN_VERSION: u32 = 1;

/// Bytes per token at the verbose end of the band.
pub const BYTES_PER_TOKEN_LOW: u64 = 6;

/// Bytes per token at the dense end of the band.
pub const BYTES_PER_TOKEN_HIGH: u64 = 2;

/// Tokens one analysis packet costs beyond the source it carries.
pub const PACKET_OVERHEAD_TOKENS: u64 = 200;

/// Tokens one enriched unit is expected to produce, at the low end.
pub const OUTPUT_TOKENS_LOW: u64 = 64;

/// Tokens one enriched unit is expected to produce, at the high end.
pub const OUTPUT_TOKENS_HIGH: u64 = 512;

// -- Estimates ---------------------------------------------------------------------

/// An estimate with an explicit spread.
#[derive(Clone, Copy, Debug, PartialEq, Eq, Structural)]
pub struct TokenRange {
    /// The optimistic end.
    pub low: u64,
    /// The pessimistic end, which is the one a budget check uses.
    pub high: u64,
}

impl TokenRange {
    /// A range that spends nothing.
    pub open spec fn nothing() -> TokenRange {
        TokenRange { low: 0, high: 0 }
    }

    /// A range that spends nothing.
    pub fn zero() -> (range: Self)
        ensures
            range == TokenRange::nothing(),
    {
        TokenRange { low: 0, high: 0 }
    }

    /// A range from its two ends, ordered so that `low` never exceeds `high`.
    pub fn new(low: u64, high: u64) -> (range: Self)
        ensures
            range == (if low <= high {
                TokenRange { low, high }
            } else {
                TokenRange { low: high, high: low }
            }),
            range.low <= range.high,
    {
        if low > high {
            TokenRange { low: high, high: low }
        } else {
            TokenRange { low, high }
        }
    }

    /// Reports whether this range spends nothing at its pessimistic end.
    pub fn is_zero(self) -> (answer: bool)
        ensures
            answer == (self.high == 0),
    {
        self.high == 0
    }

    /// One number where both ends agree, else both.
    pub fn to_string(self) -> (text: String)
        ensures
            text@ == (if self.low == self.high {
                digits_of(self.low as nat)
            } else {
                digits_of(self.low as nat) + "–"@ + digits_of(self.high as nat)
            }),
    {
        let low = show_unsigned(self.low);
        if self.low == self.high {
            return low;
        }
        let mut text = joined(low.as_str(), "–");
        text.append(show_unsigned(self.high).as_str());
        text
    }
}

impl Default for TokenRange {
    fn default() -> (range: Self)
        ensures
            range == TokenRange::nothing(),
    {
        TokenRange::zero()
    }
}

/// A number, or the largest there is room for.
pub open spec fn at_most_u64(number: int) -> u64 {
    if number > u64::MAX {
        u64::MAX
    } else {
        number as u64
    }
}

fn capped(number: u128) -> (result: u64)
    ensures
        result == at_most_u64(number as int),
{
    if number > u64::MAX as u128 {
        u64::MAX
    } else {
        number as u64
    }
}

/// The tokens that source costs to send: some for each byte, and some for each packet.
pub open spec fn input_estimate(bytes: u64, units: u64) -> TokenRange {
    if units == 0 {
        TokenRange::nothing()
    } else {
        let overhead = at_most_u64(units * PACKET_OVERHEAD_TOKENS);
        TokenRange {
            low: at_most_u64(bytes / BYTES_PER_TOKEN_LOW + overhead),
            high: at_most_u64(bytes / BYTES_PER_TOKEN_HIGH + overhead),
        }
    }
}

/// The tokens that enriched units produce.
pub open spec fn output_estimate(units: u64) -> TokenRange {
    TokenRange {
        low: at_most_u64(units * OUTPUT_TOKENS_LOW),
        high: at_most_u64(units * OUTPUT_TOKENS_HIGH),
    }
}

/// Estimates the input tokens `bytes` of source costs across `units` packets.
///
/// The band is deliberately wide. Packet overhead is charged per unit, because what is
/// wrapped around a small file does not shrink with it.
pub fn estimate_input(bytes: u64, units: u64) -> (range: TokenRange)
    ensures
        range == input_estimate(bytes, units),
        range.low <= range.high,
{
    if units == 0 {
        return TokenRange::zero();
    }
    assert(units * PACKET_OVERHEAD_TOKENS <= u64::MAX * 200) by (nonlinear_arith)
        requires
            units <= u64::MAX,
            PACKET_OVERHEAD_TOKENS == 200,
    ;
    let overhead = capped(units as u128 * PACKET_OVERHEAD_TOKENS as u128);
    TokenRange::new(
        capped((bytes / BYTES_PER_TOKEN_LOW) as u128 + overhead as u128),
        capped((bytes / BYTES_PER_TOKEN_HIGH) as u128 + overhead as u128),
    )
}

proof fn outputs_are_bands(units: u64)
    ensures
        units * OUTPUT_TOKENS_LOW <= units * OUTPUT_TOKENS_HIGH <= u64::MAX * 512,
{
    assert(units * OUTPUT_TOKENS_LOW <= units * OUTPUT_TOKENS_HIGH <= u64::MAX * 512)
        by (nonlinear_arith)
        requires
            units <= u64::MAX,
            OUTPUT_TOKENS_LOW == 64,
            OUTPUT_TOKENS_HIGH == 512,
    ;
}

/// Estimates the output tokens `units` enriched units produce.
///
/// Charged per unit: a summary of a large file is not proportionally larger than a summary
/// of a small one.
pub fn estimate_output(units: u64) -> (range: TokenRange)
    ensures
        range == output_estimate(units),
        range.low <= range.high,
{
    proof {
        outputs_are_bands(units);
    }
    TokenRange::new(
        capped(units as u128 * OUTPUT_TOKENS_LOW as u128),
        capped(units as u128 * OUTPUT_TOKENS_HIGH as u128),
    )
}

// -- Budgets -----------------------------------------------------------------------

/// The ceilings an AI run may not cross.
#[derive(Debug, PartialEq, Eq)]
pub struct AiBudget {
    /// Hard input-token ceiling, or unlimited.
    pub max_input_tokens: Option<u64>,
    /// Hard output-token ceiling, or unlimited.
    pub max_output_tokens: Option<u64>,
    /// Advisory cost ceiling, as a decimal string so a currency amount is never rounded.
    pub max_cost_usd: Option<String>,
    /// What to do at a ceiling.
    pub on_exceeded: BudgetAction,
}

/// The ceilings an AI run may not cross.
pub struct BudgetModel {
    /// Hard input-token ceiling.
    pub max_input_tokens: Option<u64>,
    /// Hard output-token ceiling.
    pub max_output_tokens: Option<u64>,
    /// Advisory cost ceiling.
    pub max_cost_usd: Option<Seq<char>>,
    /// What to do at a ceiling.
    pub on_exceeded: BudgetAction,
}

impl View for AiBudget {
    type V = BudgetModel;

    open spec fn view(&self) -> BudgetModel {
        BudgetModel {
            max_input_tokens: self.max_input_tokens,
            max_output_tokens: self.max_output_tokens,
            max_cost_usd: view_of(self.max_cost_usd),
            on_exceeded: self.on_exceeded,
        }
    }
}

/// The budget that settings describe.
pub open spec fn budget_of(analysis: AnalysisSettings) -> BudgetModel {
    BudgetModel {
        max_input_tokens: analysis.max_input_tokens,
        max_output_tokens: analysis.max_output_tokens,
        max_cost_usd: view_of(analysis.max_cost_usd),
        on_exceeded: analysis.on_budget_exceeded,
    }
}

/// What a budget check decided.
#[derive(Clone, Copy, Debug, PartialEq, Eq)]
pub enum BudgetCheck {
    /// The estimated run fits every hard ceiling.
    Fits,
    /// A ceiling would be crossed.
    Exceeds {
        /// Which ceiling.
        field: &'static str,
        /// The pessimistic estimate that crossed it.
        estimated: u64,
        /// The ceiling.
        limit: u64,
    },
}

/// What a budget check decided.
pub enum CheckModel {
    /// The estimated run fits every hard ceiling.
    Fits,
    /// A ceiling would be crossed.
    Exceeds {
        /// Which ceiling.
        field: Seq<char>,
        /// The pessimistic estimate that crossed it.
        estimated: u64,
        /// The ceiling.
        limit: u64,
    },
}

impl View for BudgetCheck {
    type V = CheckModel;

    open spec fn view(&self) -> CheckModel {
        match *self {
            BudgetCheck::Fits => CheckModel::Fits,
            BudgetCheck::Exceeds { field, estimated, limit } => CheckModel::Exceeds {
                field: field@,
                estimated,
                limit,
            },
        }
    }
}

/// Whether a run with these estimates fits a budget. A ceiling is crossed where the
/// pessimistic estimate is above it.
pub open spec fn checked(budget: BudgetModel, input: TokenRange, output: TokenRange) -> CheckModel {
    if budget.max_input_tokens matches Some(limit) && input.high > limit {
        CheckModel::Exceeds {
            field: "max_input_tokens"@,
            estimated: input.high,
            limit: budget.max_input_tokens->0,
        }
    } else if budget.max_output_tokens matches Some(limit) && output.high > limit {
        CheckModel::Exceeds {
            field: "max_output_tokens"@,
            estimated: output.high,
            limit: budget.max_output_tokens->0,
        }
    } else {
        CheckModel::Fits
    }
}

impl BudgetCheck {
    /// Reports whether the run may start.
    pub fn fits(self) -> (answer: bool)
        ensures
            answer == (self@ is Fits),
    {
        matches!(self, BudgetCheck::Fits)
    }

    /// The decision in words.
    pub fn to_string(self) -> (text: String)
        ensures
            text@ == (match self@ {
                CheckModel::Fits => "within budget"@,
                CheckModel::Exceeds { field, estimated, limit } => field + " is "@ + digits_of(
                    limit as nat,
                ) + " and this run could reach "@ + digits_of(estimated as nat),
            }),
    {
        match self {
            BudgetCheck::Fits => "within budget".to_owned(),
            BudgetCheck::Exceeds { field, estimated, limit } => {
                let mut text = joined(field, " is ");
                text.append(show_unsigned(limit).as_str());
                text.append(" and this run could reach ");
                text.append(show_unsigned(estimated).as_str());
                text
            }
        }
    }
}

fn copy_text(text: &Option<String>) -> (copy: Option<String>)
    ensures
        view_of(copy) == view_of(*text),
{
    match text {
        Some(found) => Some(found.clone()),
        None => None,
    }
}

impl AiBudget {
    /// The budget the configured analysis settings describe.
    pub fn from_settings(analysis: &AnalysisSettings) -> (budget: Self)
        ensures
            budget@ == budget_of(*analysis),
    {
        AiBudget {
            max_input_tokens: analysis.max_input_tokens,
            max_output_tokens: analysis.max_output_tokens,
            max_cost_usd: copy_text(&analysis.max_cost_usd),
            on_exceeded: analysis.on_budget_exceeded,
        }
    }

    /// Reports whether an estimated run fits.
    ///
    /// Checked against [`TokenRange::high`]: a call that could exceed a hard limit never
    /// starts.
    pub fn check(&self, input: TokenRange, output: TokenRange) -> (decision: BudgetCheck)
        ensures
            decision@ == checked(self@, input, output),
    {
        if let Some(limit) = self.max_input_tokens {
            if input.high > limit {
                return BudgetCheck::Exceeds {
                    field: "max_input_tokens",
                    estimated: input.high,
                    limit,
                };
            }
        }
        if let Some(limit) = self.max_output_tokens {
            if output.high > limit {
                return BudgetCheck::Exceeds {
                    field: "max_output_tokens",
                    estimated: output.high,
                    limit,
                };
            }
        }
        BudgetCheck::Fits
    }

    /// Reports whether any hard ceiling is configured.
    pub fn has_hard_limit(&self) -> (answer: bool)
        ensures
            answer == (self@.max_input_tokens is Some || self@.max_output_tokens is Some),
    {
        self.max_input_tokens.is_some() || self.max_output_tokens.is_some()
    }
}

impl Default for AiBudget {
    fn default() -> (budget: Self)
        ensures
            budget@ == (BudgetModel {
                max_input_tokens: None,
                max_output_tokens: None,
                max_cost_usd: None,
                on_exceeded: BudgetAction::Ask,
            }),
    {
        AiBudget {
            max_input_tokens: None,
            max_output_tokens: None,
            max_cost_usd: None,
            on_exceeded: BudgetAction::Ask,
        }
    }
}

// -- The plan ----------------------------------------------------------------------

/// What a build would do.
#[derive(Debug, PartialEq, Eq)]
pub struct BuildPlan {
    /// Version of the plan contract.
    pub plan_version: u32,
    /// The immutable snapshot this plan describes.
    pub source_revision: String,
    /// Files the scanner reached and did not exclude.
    pub scanned_files: u64,
    /// Files a deterministic analyzer covers.
    pub structural_files: u64,
    /// Files no analyzer covers.
    pub unsupported_files: u64,
    /// Files eligible for AI enrichment.
    pub semantic_candidates: u64,
    /// Candidates a reusable artifact already answers.
    pub semantic_cache_hits: u64,
    /// What this run would send.
    pub estimated_input_tokens: TokenRange,
    /// What this run would receive.
    pub estimated_output_tokens: TokenRange,
    /// The ceilings it may not cross.
    pub budget: AiBudget,
}

/// What a build would do.
pub struct PlanModel {
    /// Version of the plan contract.
    pub plan_version: u32,
    /// The snapshot.
    pub source_revision: Seq<char>,
    /// Files the scanner reached and did not exclude.
    pub scanned_files: nat,
    /// Files a deterministic analyzer covers.
    pub structural_files: nat,
    /// Files no analyzer covers.
    pub unsupported_files: nat,
    /// Files eligible for AI enrichment.
    pub semantic_candidates: nat,
    /// Candidates a reusable artifact already answers.
    pub semantic_cache_hits: nat,
    /// What this run would send.
    pub estimated_input_tokens: TokenRange,
    /// What this run would receive.
    pub estimated_output_tokens: TokenRange,
    /// The ceilings it may not cross.
    pub budget: BudgetModel,
}

impl View for BuildPlan {
    type V = PlanModel;

    open spec fn view(&self) -> PlanModel {
        PlanModel {
            plan_version: self.plan_version,
            source_revision: self.source_revision@,
            scanned_files: self.scanned_files as nat,
            structural_files: self.structural_files as nat,
            unsupported_files: self.unsupported_files as nat,
            semantic_candidates: self.semantic_candidates as nat,
            semantic_cache_hits: self.semantic_cache_hits as nat,
            estimated_input_tokens: self.estimated_input_tokens,
            estimated_output_tokens: self.estimated_output_tokens,
            budget: self.budget@,
        }
    }
}

impl BuildPlan {
    /// Reports whether this run would spend any AI tokens.
    pub fn spends_tokens(&self) -> (answer: bool)
        ensures
            answer == (self@.estimated_input_tokens.high != 0),
    {
        !self.estimated_input_tokens.is_zero()
    }

    /// Reports whether the estimated run fits every hard ceiling.
    pub fn within_budget(&self) -> (decision: BudgetCheck)
        ensures
            decision@ == checked(
                self@.budget,
                self@.estimated_input_tokens,
                self@.estimated_output_tokens,
            ),
    {
        self.budget.check(self.estimated_input_tokens, self.estimated_output_tokens)
    }
}

/// What one language contributes to a plan.
#[derive(Debug, PartialEq, Eq)]
pub struct LanguageSummary {
    /// The language.
    pub language: String,
    /// How many files carry it.
    pub files: u64,
    /// How many bytes they hold.
    pub bytes: u64,
    /// The best precision available for it.
    pub precision: PrecisionClass,
}

/// What one language contributes to a plan.
pub struct LanguageModel {
    /// The language.
    pub language: Seq<char>,
    /// How many files carry it.
    pub files: nat,
    /// How many bytes they hold.
    pub bytes: nat,
    /// The best precision available for it.
    pub precision: PrecisionClass,
}

impl View for LanguageSummary {
    type V = LanguageModel;

    open spec fn view(&self) -> LanguageModel {
        LanguageModel {
            language: self.language@,
            files: self.files as nat,
            bytes: self.bytes as nat,
            precision: self.precision,
        }
    }
}

/// A plan and everything this build knows beside it.
#[derive(Debug, PartialEq, Eq)]
pub struct PlanReport {
    /// The plan.
    pub plan: BuildPlan,
    /// What each language contributes, in name order.
    pub languages: Vec<LanguageSummary>,
    /// How many files each exclusion accounts for, in reason order.
    pub skipped: Vec<(SkipReason, u64)>,
    /// Whether AI enrichment is permitted at all.
    pub ai_mode: AiMode,
}

/// A plan and everything a build knows beside it.
pub struct ReportModel {
    /// The plan.
    pub plan: PlanModel,
    /// What each language contributes.
    pub languages: Seq<LanguageModel>,
    /// How many files each exclusion accounts for.
    pub skipped: Seq<(SkipReason, u64)>,
    /// Whether AI enrichment is permitted at all.
    pub ai_mode: AiMode,
}

impl View for PlanReport {
    type V = ReportModel;

    open spec fn view(&self) -> ReportModel {
        ReportModel {
            plan: self.plan@,
            languages: views(self.languages@),
            skipped: self.skipped@,
            ai_mode: self.ai_mode,
        }
    }
}

/// How many files the first `count` exclusions account for.
pub open spec fn skipped_total(skipped: Seq<(SkipReason, u64)>, count: int) -> nat
    decreases count,
{
    if count <= 0 {
        0
    } else {
        skipped_total(skipped, count - 1) + skipped[count - 1].1 as nat
    }
}

proof fn skipped_grow(skipped: Seq<(SkipReason, u64)>, first: int, second: int)
    requires
        first <= second,
    ensures
        skipped_total(skipped, first) <= skipped_total(skipped, second),
    decreases second,
{
    if first < second && second > 0 {
        skipped_grow(skipped, first, second - 1);
    }
}

impl PlanReport {
    /// Files the scanner excluded, for every reason together.
    pub fn skipped_files(&self) -> (count: u64)
        requires
            skipped_total(self@.skipped, self@.skipped.len() as int) <= u64::MAX,
        ensures
            count == skipped_total(self@.skipped, self@.skipped.len() as int),
    {
        let mut count: u64 = 0;
        let mut at: usize = 0;
        while at < self.skipped.len()
            invariant
                at <= self.skipped@.len(),
                skipped_total(self.skipped@, self.skipped@.len() as int) <= u64::MAX,
                count == skipped_total(self.skipped@, at as int),
            decreases self.skipped@.len() - at,
        {
            proof {
                skipped_grow(self.skipped@, at as int + 1, self.skipped@.len() as int);
            }
            count = count + self.skipped[at].1;
            at = at + 1;
        }
        count
    }
}

// -- Revisions ---------------------------------------------------------------------

/// What the revision of a tree is the digest of: every path with the digest of its
/// contents, for the first `count` files.
pub open spec fn material_of(files: Seq<FileModel>, count: int) -> Seq<u8>
    decreases count,
{
    if count <= 0 {
        Seq::empty()
    } else {
        material_of(files, count - 1) + encode_utf8(files[count - 1].path) + seq![0u8]
            + encode_utf8(files[count - 1].digest) + seq![10u8]
    }
}

fn add_bytes(bytes: &mut Vec<u8>, more: &[u8])
    ensures
        final(bytes)@ == old(bytes)@ + more@,
{
    let ghost first = bytes@;
    let mut at: usize = 0;
    assert(first + more@.take(0) =~= first);
    while at < more.len()
        invariant
            at <= more@.len(),
            bytes@ == first + more@.take(at as int),
        decreases more@.len() - at,
    {
        bytes.push(more[at]);
        assert(first + more@.take(at as int + 1) =~= (first + more@.take(at as int)).push(
            more@[at as int],
        ));
        at = at + 1;
    }
    assert(more@.take(more@.len() as int) =~= more@);
}

/// What the revision of a scanned tree is the digest of.
///
/// A local working tree has no commit to name it, so its revision is derived from what was
/// scanned: every path with the digest of its contents, in the scan's own order.
pub fn revision_material(scan: &Scan) -> (bytes: Vec<u8>)
    ensures
        bytes@ == material_of(scan@.files, scan@.files.len() as int),
{
    let ghost models = scan@.files;
    let mut bytes: Vec<u8> = Vec::new();
    let mut at: usize = 0;
    while at < scan.files.len()
        invariant
            at <= scan.files@.len(),
            models == views(scan.files@),
            bytes@ == material_of(models, at as int),
        decreases scan.files@.len() - at,
    {
        assert(models[at as int] == scan.files@[at as int]@);
        let ghost before = bytes@;
        add_bytes(&mut bytes, scan.files[at].path.as_str().as_bytes());
        bytes.push(0);
        add_bytes(&mut bytes, scan.files[at].digest.as_str().as_bytes());
        bytes.push(10);
        assert(bytes@ =~= before + encode_utf8(models[at as int].path) + seq![0u8] + encode_utf8(
            models[at as int].digest,
        ) + seq![10u8]);
        at = at + 1;
    }
    bytes
}

/// Whether a digest function may give this digest for these bytes.
pub open spec fn digests<D: Fn(&[u8]) -> ContentDigest>(
    digest: D,
    material: Seq<u8>,
    found: Seq<char>,
) -> bool {
    exists|bytes: &[u8], made: ContentDigest|
        #[trigger] call_ensures(digest, (bytes,), made) && bytes@ == material && made@ == found
}

/// Whether this may be the revision of a tree with these files.
pub open spec fn is_revision<D: Fn(&[u8]) -> ContentDigest>(
    digest: D,
    files: Seq<FileModel>,
    revision: Seq<char>,
) -> bool {
    exists|found: Seq<char>| #[trigger]
        digests(digest, material_of(files, files.len() as int), found) && revision == "tree:"@
            + found
}

fn revision_digest<D: Fn(&[u8]) -> ContentDigest>(scan: &Scan, digest: D) -> (found: ContentDigest)
    requires
        forall|bytes: &[u8]| #[trigger] call_requires(digest, (bytes,)),
    ensures
        digests(digest, material_of(scan@.files, scan@.files.len() as int), found@),
{
    let material = revision_material(scan);
    digest(material.as_slice())
}

/// The immutable snapshot identity of a scanned tree: what `digest` gives for its
/// [`revision_material`].
///
/// Tagged `tree:` so it is never mistaken for a commit.
pub fn source_revision<D: Fn(&[u8]) -> ContentDigest>(scan: &Scan, digest: D) -> (revision: String)
    requires
        forall|bytes: &[u8]| #[trigger] call_requires(digest, (bytes,)),
    ensures
        is_revision(digest, scan@.files, revision@),
{
    let found = revision_digest(scan, digest);
    joined("tree:", found.as_str())
}

// -- Planning ----------------------------------------------------------------------

/// Whether AI would read a file at a precision, in a mode.
///
/// With AI off the answer is what it would read if it were asked, so that a plan can say
/// what could be enriched although this run spends nothing.
pub open spec fn reads(mode: AiMode, precision: PrecisionClass) -> bool {
    match mode {
        AiMode::Full => true,
        _ => !precision.deterministic(),
    }
}

/// What a file is counted for.
pub enum Counted {
    /// That a deterministic analyzer covers it.
    Covered,
    /// That no analyzer covers it.
    Unsupported,
    /// That AI would read it in a mode.
    Candidate(AiMode),
}

/// Whether a file at a precision is counted.
pub open spec fn counts(what: Counted, precision: PrecisionClass) -> bool {
    match what {
        Counted::Covered => precision.deterministic(),
        Counted::Unsupported => precision == PrecisionClass::Unsupported,
        Counted::Candidate(mode) => reads(mode, precision),
    }
}

/// How many of the first `count` files are counted.
pub open spec fn files_counted(
    files: Seq<FileModel>,
    registry: Seq<CapabilityModel>,
    what: Counted,
    count: int,
) -> nat
    decreases count,
{
    if count <= 0 {
        0
    } else {
        files_counted(files, registry, what, count - 1) + if counts(
            what,
            precision_of(registry, files[count - 1].language),
        ) {
            1nat
        } else {
            0nat
        }
    }
}

/// How many bytes the counted ones of the first `count` files hold.
pub open spec fn bytes_counted(
    files: Seq<FileModel>,
    registry: Seq<CapabilityModel>,
    what: Counted,
    count: int,
) -> nat
    decreases count,
{
    if count <= 0 {
        0
    } else {
        bytes_counted(files, registry, what, count - 1) + if counts(
            what,
            precision_of(registry, files[count - 1].language),
        ) {
            files[count - 1].bytes as nat
        } else {
            0nat
        }
    }
}

/// How many bytes the first `count` files hold.
pub open spec fn bytes_scanned(files: Seq<FileModel>, count: int) -> nat
    decreases count,
{
    if count <= 0 {
        0
    } else {
        bytes_scanned(files, count - 1) + files[count - 1].bytes as nat
    }
}

/// Where a language stands, or would stand, among languages in order, from `at` on.
pub open spec fn language_place(languages: Seq<LanguageModel>, language: Seq<char>, at: int) -> int
    decreases languages.len() - at,
{
    if at < 0 || at >= languages.len() || !precedes(languages[at].language, language) {
        at
    } else {
        language_place(languages, language, at + 1)
    }
}

/// Languages in order with one more file.
pub open spec fn tallied(
    languages: Seq<LanguageModel>,
    file: FileModel,
    registry: Seq<CapabilityModel>,
) -> Seq<LanguageModel> {
    let at = language_place(languages, file.language, 0);
    if at < languages.len() && languages[at].language == file.language {
        languages.update(
            at,
            LanguageModel {
                files: languages[at].files + 1,
                bytes: languages[at].bytes + file.bytes as nat,
                ..languages[at]
            },
        )
    } else {
        languages.insert(
            at,
            LanguageModel {
                language: file.language,
                files: 1,
                bytes: file.bytes as nat,
                precision: precision_of(registry, file.language),
            },
        )
    }
}

/// What each language contributes among the first `count` files, in name order.
pub open spec fn languages_of(
    files: Seq<FileModel>,
    registry: Seq<CapabilityModel>,
    count: int,
) -> Seq<LanguageModel>
    decreases count,
{
    if count <= 0 {
        Seq::empty()
    } else {
        tallied(languages_of(files, registry, count - 1), files[count - 1], registry)
    }
}

/// How many of the first `count` exclusions have a reason.
pub open spec fn reason_count(skipped: Seq<SkippedModel>, reason: SkipReason, count: int) -> nat
    decreases count,
{
    if count <= 0 {
        0
    } else {
        reason_count(skipped, reason, count - 1) + if skipped[count - 1].reason == reason {
            1nat
        } else {
            0nat
        }
    }
}

/// One reason with how many exclusions have it, where any does.
pub open spec fn grouped_under(skipped: Seq<SkippedModel>, reason: SkipReason) -> Seq<
    (SkipReason, u64),
> {
    let count = reason_count(skipped, reason, skipped.len() as int);
    if count == 0 {
        Seq::empty()
    } else {
        seq![(reason, count as u64)]
    }
}

/// How many exclusions each reason accounts for, in reason order.
pub open spec fn grouped(skipped: Seq<SkippedModel>) -> Seq<(SkipReason, u64)> {
    grouped_under(skipped, SkipReason::Ignored) + grouped_under(skipped, SkipReason::Sensitive)
}

/// The plan for one scan.
pub open spec fn report_of(
    scan: ScanModel,
    registry: Seq<CapabilityModel>,
    analysis: AnalysisSettings,
    digest: Seq<char>,
) -> ReportModel {
    let total = scan.files.len() as int;
    let mode = analysis.ai_mode;
    let candidates = files_counted(scan.files, registry, Counted::Candidate(mode), total);
    let bytes = bytes_counted(scan.files, registry, Counted::Candidate(mode), total);
    ReportModel {
        plan: PlanModel {
            plan_version: PLAN_VERSION,
            source_revision: "tree:"@ + digest,
            scanned_files: scan.files.len(),
            structural_files: files_counted(scan.files, registry, Counted::Covered, total),
            unsupported_files: files_counted(scan.files, registry, Counted::Unsupported, total),
            semantic_candidates: candidates,
            semantic_cache_hits: 0,
            estimated_input_tokens: if mode == AiMode::Off {
                TokenRange::nothing()
            } else {
                input_estimate(bytes as u64, candidates as u64)
            },
            estimated_output_tokens: if mode == AiMode::Off {
                TokenRange::nothing()
            } else {
                output_estimate(candidates as u64)
            },
            budget: budget_of(analysis),
        },
        languages: languages_of(scan.files, registry, total),
        skipped: grouped(scan.skipped),
        ai_mode: mode,
    }
}

proof fn scanned_grow(files: Seq<FileModel>, first: int, second: int)
    requires
        first <= second,
    ensures
        bytes_scanned(files, first) <= bytes_scanned(files, second),
    decreases second,
{
    if first < second && second > 0 {
        scanned_grow(files, first, second - 1);
    }
}

/// Whether languages account for no more than so many files and bytes.
spec fn tallies_fit(languages: Seq<LanguageModel>, files: nat, bytes: nat) -> bool {
    forall|i: int|
        0 <= i < languages.len() ==> (#[trigger] languages[i]).files <= files
            && languages[i].bytes <= bytes
}

fn tally(
    languages: &mut Vec<LanguageSummary>,
    language: &str,
    bytes: u64,
    precision: PrecisionClass,
    Ghost(file): Ghost<FileModel>,
    Ghost(registry): Ghost<Seq<CapabilityModel>>,
    Ghost(files): Ghost<nat>,
    Ghost(sofar): Ghost<nat>,
)
    requires
        file.language == language@,
        file.bytes == bytes,
        precision == precision_of(registry, language@),
        tallies_fit(views(old(languages)@), files, sofar),
        files < u64::MAX,
        sofar + bytes <= u64::MAX,
    ensures
        views(final(languages)@) == tallied(views(old(languages)@), file, registry),
        tallies_fit(views(final(languages)@), files + 1, sofar + bytes as nat),
{
    let ghost models = views(languages@);
    let mut at: usize = 0;
    while at < languages.len() && is_before(languages[at].language.as_str(), language)
        invariant
            at <= languages@.len(),
            models == views(languages@),
            language_place(models, language@, 0) == language_place(models, language@, at as int),
        decreases languages@.len() - at,
    {
        assert(models[at as int] == languages@[at as int]@);
        at = at + 1;
    }
    if at < languages.len() {
        assert(models[at as int] == languages@[at as int]@);
    }
    assert(language_place(models, language@, 0) == at);
    if at < languages.len() && same(languages[at].language.as_str(), language) {
        assert(models[at as int].files <= files && models[at as int].bytes <= sofar);
        let one = LanguageSummary {
            language: languages[at].language.clone(),
            files: languages[at].files + 1,
            bytes: languages[at].bytes + bytes,
            precision: languages[at].precision,
        };
        proof {
            assert(views(languages@.update(at as int, one)) =~= models.update(at as int, one@));
            let after = models.update(at as int, one@);
            assert forall|i: int| 0 <= i < after.len() implies (#[trigger] after[i]).files <= files
                + 1 && after[i].bytes <= sofar + bytes by {
                if i != at {
                    assert(models[i].files <= files);
                }
            }
        }
        languages.set(at, one);
    } else {
        let one = LanguageSummary { language: language.to_owned(), files: 1, bytes, precision };
        proof {
            assert(views(languages@.insert(at as int, one)) =~= models.insert(at as int, one@));
            let after = models.insert(at as int, one@);
            assert forall|i: int| 0 <= i < after.len() implies (#[trigger] after[i]).files <= files
                + 1 && after[i].bytes <= sofar + bytes by {
                if i < at {
                    assert(after[i] == models[i]);
                } else if i > at {
                    assert(after[i] == models[i - 1]);
                }
            }
        }
        languages.insert(at, one);
    }
}

fn count_reason(scan: &Scan, reason: SkipReason) -> (count: u64)
    ensures
        count == reason_count(scan@.skipped, reason, scan@.skipped.len() as int),
{
    let ghost models = scan@.skipped;
    let mut count: u64 = 0;
    let mut at: usize = 0;
    while at < scan.skipped.len()
        invariant
            at <= scan.skipped@.len(),
            models == views(scan.skipped@),
            count == reason_count(models, reason, at as int),
            count <= at,
        decreases scan.skipped@.len() - at,
    {
        assert(models[at as int] == scan.skipped@[at as int]@);
        if scan.skipped[at].reason == reason {
            count = count + 1;
        }
        at = at + 1;
    }
    count
}

fn group_reasons(scan: &Scan) -> (found: Vec<(SkipReason, u64)>)
    ensures
        found@ == grouped(scan@.skipped),
{
    let mut found: Vec<(SkipReason, u64)> = Vec::new();
    let ignored = count_reason(scan, SkipReason::Ignored);
    if ignored > 0 {
        found.push((SkipReason::Ignored, ignored));
    }
    let sensitive = count_reason(scan, SkipReason::Sensitive);
    if sensitive > 0 {
        found.push((SkipReason::Sensitive, sensitive));
    }
    assert(found@ =~= grouped(scan@.skipped));
    found
}

fn is_read(mode: AiMode, precision: PrecisionClass) -> (answer: bool)
    ensures
        answer == reads(mode, precision),
{
    match mode {
        AiMode::Full => true,
        _ => precision.eligible_for_ai(),
    }
}

/// Produces the plan for one scan, named by what `digest` gives for its
/// [`revision_material`].
///
/// Everything it reports comes from the scan already in hand, the analyzers registered, and
/// the configured budget.
pub fn plan<D: Fn(&[u8]) -> ContentDigest>(
    scan: &Scan,
    registry: &CapabilityRegistry,
    analysis: &AnalysisSettings,
    digest: D,
) -> (report: PlanReport)
    requires
        bytes_scanned(scan@.files, scan@.files.len() as int) <= u64::MAX,
        forall|bytes: &[u8]| #[trigger] call_requires(digest, (bytes,)),
    ensures
        exists|found: Seq<char>| #[trigger]
            digests(digest, material_of(scan@.files, scan@.files.len() as int), found)
                && report@ == report_of(scan@, registry@, *analysis, found),
{
    let named = revision_digest(scan, digest);
    let ghost models = scan@.files;
    let ghost known = registry@;
    let ghost candidate = Counted::Candidate(analysis.ai_mode);
    let total: usize = scan.files.len();
    let mut languages: Vec<LanguageSummary> = Vec::new();
    assert(views(languages@) =~= Seq::<LanguageModel>::empty());
    let mut structural: u64 = 0;
    let mut unsupported: u64 = 0;
    let mut candidates: u64 = 0;
    let mut bytes: u64 = 0;
    let mut at: usize = 0;
    while at < scan.files.len()
        invariant
            at <= scan.files@.len(),
            models == views(scan.files@),
            known == registry@,
            candidate == Counted::Candidate(analysis.ai_mode),
            bytes_scanned(models, models.len() as int) <= u64::MAX,
            views(languages@) == languages_of(models, known, at as int),
            tallies_fit(views(languages@), at as nat, bytes_scanned(models, at as int)),
            structural == files_counted(models, known, Counted::Covered, at as int),
            unsupported == files_counted(models, known, Counted::Unsupported, at as int),
            candidates == files_counted(models, known, candidate, at as int),
            bytes == bytes_counted(models, known, candidate, at as int),
            structural <= at,
            unsupported <= at,
            candidates <= at,
            bytes <= bytes_scanned(models, at as int),
        decreases scan.files@.len() - at,
    {
        assert(models[at as int] == scan.files@[at as int]@);
        proof {
            scanned_grow(models, at as int + 1, models.len() as int);
        }
        let file = &scan.files[at];
        let precision = registry.precision(file.language.as_str());
        tally(
            &mut languages,
            file.language.as_str(),
            file.bytes,
            precision,
            Ghost(models[at as int]),
            Ghost(known),
            Ghost(at as nat),
            Ghost(bytes_scanned(models, at as int)),
        );
        if precision.is_deterministic() {
            structural = structural + 1;
        }
        if precision == PrecisionClass::Unsupported {
            unsupported = unsupported + 1;
        }
        if is_read(analysis.ai_mode, precision) {
            candidates = candidates + 1;
            bytes = bytes + file.bytes;
        }
        at = at + 1;
    }
    let off = analysis.ai_mode == AiMode::Off;
    let input = if off {
        TokenRange::zero()
    } else {
        estimate_input(bytes, candidates)
    };
    let output = if off {
        TokenRange::zero()
    } else {
        estimate_output(candidates)
    };
    PlanReport {
        plan: BuildPlan {
            plan_version: PLAN_VERSION,
            source_revision: joined("tree:", named.as_str()),
            scanned_files: total as u64,
            structural_files: structural,
            unsupported_files: unsupported,
            semantic_candidates: candidates,
            semantic_cache_hits: 0,
            estimated_input_tokens: input,
            estimated_output_tokens: output,
            budget: AiBudget::from_settings(analysis),
        },
        languages,
        skipped: group_reasons(scan),
        ai_mode: analysis.ai_mode,
    }
}

// -- Laws --------------------------------------------------------------------------

/// A run that a budget lets start stays below every hard ceiling, whatever it comes to
/// within its estimate.
pub proof fn fitting_run_stays_below(
    budget: BudgetModel,
    input: TokenRange,
    output: TokenRange,
    sent: u64,
    received: u64,
)
    requires
        checked(budget, input, output) is Fits,
        sent <= input.high,
        received <= output.high,
    ensures
        budget.max_input_tokens matches Some(limit) ==> sent <= limit,
        budget.max_output_tokens matches Some(limit) ==> received <= limit,
{
}

/// With a ceiling of zero no run that sends anything may start; without a ceiling any may.
pub proof fn zero_is_not_unlimited(budget: BudgetModel, input: TokenRange, output: TokenRange)
    ensures
        budget.max_input_tokens == Some(0u64) && input.high > 0 ==> !(checked(
            budget,
            input,
            output,
        ) is Fits),
        budget.max_input_tokens is None && budget.max_output_tokens is None ==> checked(
            budget,
            input,
            output,
        ) is Fits,
{
}

/// With AI off a plan spends nothing.
pub proof fn off_spends_nothing(
    scan: ScanModel,
    registry: Seq<CapabilityModel>,
    analysis: AnalysisSettings,
    digest: Seq<char>,
)
    requires
        analysis.ai_mode == AiMode::Off,
    ensures
        report_of(scan, registry, analysis, digest).plan.estimated_input_tokens
            == TokenRange::nothing(),
        report_of(scan, registry, analysis, digest).plan.estimated_output_tokens
            == TokenRange::nothing(),
{
}

/// In the full mode every scanned file is a candidate.
pub proof fn full_reads_every_file(
    files: Seq<FileModel>,
    registry: Seq<CapabilityModel>,
    count: int,
)
    requires
        0 <= count <= files.len(),
    ensures
        files_counted(files, registry, Counted::Candidate(AiMode::Full), count) == count,
        bytes_counted(files, registry, Counted::Candidate(AiMode::Full), count) == bytes_scanned(
            files,
            count,
        ),
    decreases count,
{
    if count > 0 {
        full_reads_every_file(files, registry, count - 1);
    }
}

/// Outside the full mode a file is either covered by a deterministic analyzer or a
/// candidate.
pub proof fn covered_or_candidate(
    files: Seq<FileModel>,
    registry: Seq<CapabilityModel>,
    mode: AiMode,
    count: int,
)
    requires
        0 <= count <= files.len(),
        mode != AiMode::Full,
    ensures
        files_counted(files, registry, Counted::Covered, count) + files_counted(
            files,
            registry,
            Counted::Candidate(mode),
            count,
        ) == count,
        files_counted(files, registry, Counted::Unsupported, count) <= files_counted(
            files,
            registry,
            Counted::Candidate(mode),
            count,
        ),
    decreases count,
{
    if count > 0 {
        covered_or_candidate(files, registry, mode, count - 1);
    }
}

/// With AI off a plan has the candidates that it has with AI deciding by itself: it says what
/// could be enriched.
pub proof fn off_has_the_candidates_of_auto(
    scan: ScanModel,
    registry: Seq<CapabilityModel>,
    off: AnalysisSettings,
    auto: AnalysisSettings,
    digest: Seq<char>,
)
    requires
        off.ai_mode == AiMode::Off,
        auto.ai_mode == AiMode::Auto,
    ensures
        report_of(scan, registry, off, digest).plan.semantic_candidates == report_of(
            scan,
            registry,
            auto,
            digest,
        ).plan.semantic_candidates,
{
    same_candidates(scan.files, registry, scan.files.len() as int);
}

proof fn same_candidates(
    files: Seq<FileModel>,
    registry: Seq<CapabilityModel>,
    count: int,
)
    ensures
        files_counted(files, registry, Counted::Candidate(AiMode::Off), count) == files_counted(
            files,
            registry,
            Counted::Candidate(AiMode::Auto),
            count,
        ),
    decreases count,
{
    if count > 0 {
        same_candidates(files, registry, count - 1);
    }
}

/// How many files the first `count` languages account for.
pub open spec fn files_in(languages: Seq<LanguageModel>, count: int) -> nat
    decreases count,
{
    if count <= 0 {
        0
    } else {
        files_in(languages, count - 1) + languages[count - 1].files
    }
}

/// How many bytes the first `count` languages account for.
pub open spec fn bytes_in(languages: Seq<LanguageModel>, count: int) -> nat
    decreases count,
{
    if count <= 0 {
        0
    } else {
        bytes_in(languages, count - 1) + languages[count - 1].bytes
    }
}

/// Whether languages stand in name order, each once.
pub open spec fn languages_ascend(languages: Seq<LanguageModel>) -> bool {
    forall|i: int, j: int|
        0 <= i < j < languages.len() ==> precedes(
            (#[trigger] languages[i]).language,
            (#[trigger] languages[j]).language,
        )
}

proof fn place_is_right(languages: Seq<LanguageModel>, language: Seq<char>, at: int)
    requires
        0 <= at <= languages.len(),
        forall|i: int| 0 <= i < at ==> precedes((#[trigger] languages[i]).language, language),
    ensures
        at <= language_place(languages, language, at) <= languages.len(),
        forall|i: int|
            0 <= i < language_place(languages, language, at) ==> precedes(
                (#[trigger] languages[i]).language,
                language,
            ),
        language_place(languages, language, at) < languages.len() ==> !precedes(
            languages[language_place(languages, language, at)].language,
            language,
        ),
    decreases languages.len() - at,
{
    if at < languages.len() && precedes(languages[at].language, language) {
        place_is_right(languages, language, at + 1);
    }
}

proof fn updated_sums(languages: Seq<LanguageModel>, at: int, item: LanguageModel, count: int)
    requires
        0 <= at < languages.len(),
        count <= languages.len(),
    ensures
        files_in(languages.update(at, item), count) == files_in(languages, count) + (if count > at {
            item.files - languages[at].files
        } else {
            0
        }),
        bytes_in(languages.update(at, item), count) == bytes_in(languages, count) + (if count > at {
            item.bytes - languages[at].bytes
        } else {
            0
        }),
    decreases count,
{
    if count > 0 {
        updated_sums(languages, at, item, count - 1);
    }
}

proof fn inserted_sums(languages: Seq<LanguageModel>, at: int, item: LanguageModel, count: int)
    requires
        0 <= at <= languages.len(),
        count <= languages.len() + 1,
    ensures
        files_in(languages.insert(at, item), count) == (if count > at {
            files_in(languages, count - 1) + item.files
        } else {
            files_in(languages, count)
        }),
        bytes_in(languages.insert(at, item), count) == (if count > at {
            bytes_in(languages, count - 1) + item.bytes
        } else {
            bytes_in(languages, count)
        }),
    decreases count,
{
    if count > 0 {
        inserted_sums(languages, at, item, count - 1);
    }
}

/// The languages of a plan stand in name order, each once, and together they account for
/// every scanned file and every scanned byte.
pub proof fn languages_account_for_every_file(
    files: Seq<FileModel>,
    registry: Seq<CapabilityModel>,
    count: int,
)
    requires
        0 <= count <= files.len(),
    ensures
        ({
            let languages = languages_of(files, registry, count);
            &&& languages_ascend(languages)
            &&& files_in(languages, languages.len() as int) == count
            &&& bytes_in(languages, languages.len() as int) == bytes_scanned(files, count)
        }),
    decreases count,
{
    if count > 0 {
        languages_account_for_every_file(files, registry, count - 1);
        let languages = languages_of(files, registry, count - 1);
        let file = files[count - 1];
        let at = language_place(languages, file.language, 0);
        place_is_right(languages, file.language, 0);
        let after = tallied(languages, file, registry);
        if at < languages.len() && languages[at].language == file.language {
            updated_sums(languages, at, after[at], languages.len() as int);
            assert(after == languages.update(at, after[at]));
        } else {
            inserted_sums(languages, at, after[at], languages.len() as int + 1);
            assert(after == languages.insert(at, after[at]));
            assert forall|i: int, j: int| 0 <= i < j < after.len() implies precedes(
                (#[trigger] after[i]).language,
                (#[trigger] after[j]).language,
            ) by {
                let left = if i < at {
                    i
                } else {
                    i - 1
                };
                let right = if j < at {
                    j
                } else {
                    j - 1
                };
                if i == at {
                    precedes_total(file.language, languages[at].language);
                    if right > at {
                        precedes_transitive(
                            file.language,
                            languages[at].language,
                            languages[right].language,
                        );
                    }
                } else if j != at {
                    assert(after[i] == languages[left]);
                    assert(after[j] == languages[right]);
                }
            }
        }
    }
}

/// The reasons of a plan stand in order, each once, and together they account for every
/// excluded file.
pub proof fn reasons_account_for_every_exclusion(skipped: Seq<SkippedModel>)
    requires
        skipped.len() <= u64::MAX,
    ensures
        grouped(skipped).len() <= 2,
        grouped(skipped).len() == 2 ==> grouped(skipped)[0].0 == SkipReason::Ignored && grouped(
            skipped,
        )[1].0 == SkipReason::Sensitive,
        forall|i: int| 0 <= i < grouped(skipped).len() ==> (#[trigger] grouped(skipped)[i]).1 > 0,
        skipped_total(grouped(skipped), grouped(skipped).len() as int) == skipped.len(),
{
    reveal_with_fuel(skipped_total, 3);
    every_exclusion_has_a_reason(skipped, skipped.len() as int);
}

proof fn every_exclusion_has_a_reason(skipped: Seq<SkippedModel>, count: int)
    requires
        0 <= count <= skipped.len(),
    ensures
        reason_count(skipped, SkipReason::Ignored, count) + reason_count(
            skipped,
            SkipReason::Sensitive,
            count,
        ) == count,
    decreases count,
{
    if count > 0 {
        every_exclusion_has_a_reason(skipped, count - 1);
    }
}

/// The optimistic end of an estimate is not above the pessimistic one.
pub proof fn estimates_are_bands(bytes: u64, units: u64)
    ensures
        input_estimate(bytes, units).low <= input_estimate(bytes, units).high,
        output_estimate(units).low <= output_estimate(units).high,
{
    outputs_are_bands(units);
}

// -- Revisions ---------------------------------------------------------------------

/// The bytes of a character are its number, or lie beyond ASCII.
proof fn scalar_bytes(scalar: u32, i: int)
    requires
        0 <= i < encode_scalar(scalar).len(),
    ensures
        encode_scalar(scalar)[i] >= 0x80 || (scalar <= 0x7f && encode_scalar(scalar)[i] == scalar),
{
    if has_width_1_encoding(scalar) {
        assert(((scalar & 0x7F) as u8) == scalar) by (bit_vector)
            requires
                scalar <= 0x7f,
        ;
    } else {
        assert(leading_byte_width_2(scalar) >= 0x80) by (bit_vector);
        assert(leading_byte_width_3(scalar) >= 0x80) by (bit_vector);
        assert(leading_byte_width_4(scalar) >= 0x80) by (bit_vector);
        assert(last_continuation_byte(scalar) >= 0x80) by (bit_vector);
        assert(second_last_continuation_byte(scalar) >= 0x80) by (bit_vector);
        assert(third_last_continuation_byte(scalar) >= 0x80) by (bit_vector);
    }
}

proof fn char_has_a_number(c: char)
    ensures
        c as u32 as int == c as int,
{
}

/// A text without an ASCII character has no byte with its number.
proof fn bytes_lack(text: Seq<char>, wanted: char)
    requires
        wanted < '\u{80}',
        forall|i: int| 0 <= i < text.len() ==> #[trigger] text[i] != wanted,
    ensures
        forall|i: int|
            0 <= i < encode_utf8(text).len() ==> #[trigger] encode_utf8(text)[i] != wanted as int,
    decreases text.len(),
{
    if text.len() > 0 {
        let rest = text.drop_first();
        assert forall|i: int| 0 <= i < rest.len() implies #[trigger] rest[i] != wanted by {
            assert(rest[i] == text[i + 1]);
        }
        bytes_lack(rest, wanted);
        let first = encode_scalar(text[0] as u32);
        let all = encode_utf8(text);
        assert(text[0] != wanted);
        assert(all == first + encode_utf8(rest));
        char_has_a_number(text[0]);
        assert forall|i: int| 0 <= i < all.len() implies #[trigger] all[i] != wanted as int by {
            if i < first.len() {
                scalar_bytes(text[0] as u32, i);
                assert(all[i] == first[i]);
            } else {
                assert(all[i] == encode_utf8(rest)[i - first.len()]);
            }
        }
    }
}

/// What one file adds to the material of a revision.
pub open spec fn file_material(file: FileModel) -> Seq<u8> {
    encode_utf8(file.path) + seq![0u8] + encode_utf8(file.digest) + seq![10u8]
}

proof fn material_starts(files: Seq<FileModel>, count: int)
    requires
        0 < count <= files.len(),
    ensures
        material_of(files, count) == file_material(files[0]) + material_of(
            files.drop_first(),
            count - 1,
        ),
    decreases count,
{
    let rest = files.drop_first();
    if count == 1 {
        assert(material_of(files, 0) =~= Seq::<u8>::empty());
        assert(material_of(files, 1) =~= file_material(files[0]) + material_of(rest, 0));
    } else {
        material_starts(files, count - 1);
        assert(rest[count - 2] == files[count - 1]);
        assert(material_of(files, count) =~= file_material(files[0]) + material_of(
            rest,
            count - 1,
        ));
    }
}

/// Bytes in front of the first mark are told by what follows them.
proof fn first_mark_splits(
    left: Seq<u8>,
    after: Seq<u8>,
    right: Seq<u8>,
    behind: Seq<u8>,
    mark: u8,
)
    requires
        left + seq![mark] + after == right + seq![mark] + behind,
        forall|i: int| 0 <= i < left.len() ==> #[trigger] left[i] != mark,
        forall|i: int| 0 <= i < right.len() ==> #[trigger] right[i] != mark,
    ensures
        left == right,
        after == behind,
{
    let one = left + seq![mark] + after;
    let two = right + seq![mark] + behind;
    assert(one[left.len() as int] == mark);
    assert(two[right.len() as int] == mark);
    if left.len() < right.len() {
        assert(two[left.len() as int] == right[left.len() as int]);
    }
    if right.len() < left.len() {
        assert(one[right.len() as int] == left[right.len() as int]);
    }
    assert forall|i: int| 0 <= i < left.len() implies #[trigger] left[i] == right[i] by {
        assert(one[i] == left[i] && two[i] == right[i]);
    }
    assert(left =~= right);
    assert(one.len() == left.len() + 1 + after.len());
    assert(two.len() == right.len() + 1 + behind.len());
    assert forall|i: int| 0 <= i < after.len() implies #[trigger] after[i] == behind[i] by {
        assert(one[left.len() + 1 + i] == after[i]);
        assert(two[right.len() + 1 + i] == behind[i]);
    }
    assert(after =~= behind);
}

/// Whether every file has a path without the null character, as every file of a file system
/// has, and a digest.
pub open spec fn files_are_named(files: Seq<FileModel>) -> bool {
    forall|i: int|
        0 <= i < files.len() ==> valid_digest((#[trigger] files[i]).digest)
            && !files[i].path.contains('\0')
}

proof fn algorithm_is_plain(text: Seq<char>, at: int)
    requires
        0 <= at,
    ensures
        at <= algorithm_end(text, at),
        forall|i: int| at <= i < algorithm_end(text, at) ==> algorithm_char(#[trigger] text[i]),
    decreases text.len() - at,
{
    if at < text.len() && algorithm_char(text[at]) {
        algorithm_is_plain(text, at + 1);
    }
}

/// Whether files are the same paths with the same digests, in the same order, whatever their
/// languages and sizes.
pub open spec fn same_tree(left: Seq<FileModel>, right: Seq<FileModel>) -> bool {
    left.len() == right.len() && forall|i: int|
        0 <= i < left.len() ==> (#[trigger] left[i]).path == right[i].path && left[i].digest
            == right[i].digest
}

/// Scans that hold the same paths with the same digests, in the same order, have the same
/// revision, whatever else they hold: languages, sizes and what was skipped. It starts with
/// `tree:`.
pub proof fn same_trees_have_the_same_revision<D: Fn(&[u8]) -> ContentDigest>(
    digest: D,
    left: ScanModel,
    right: ScanModel,
    one: Seq<char>,
    other: Seq<char>,
)
    requires
        forall|a: &[u8], b: &[u8], x: ContentDigest, y: ContentDigest|
            a@ == b@ && #[trigger] call_ensures(digest, (a,), x) && #[trigger] call_ensures(
                digest,
                (b,),
                y,
            ) ==> x@ == y@,
        same_tree(left.files, right.files),
        is_revision(digest, left.files, one),
        is_revision(digest, right.files, other),
    ensures
        one == other,
        "tree:"@.is_prefix_of(one),
{
    same_trees_have_the_same_material(left.files, right.files, left.files.len() as int);
    let found = choose|found: Seq<char>| #[trigger]
        digests(digest, material_of(left.files, left.files.len() as int), found) && one
            == "tree:"@ + found;
    assert("tree:"@ =~= one.subrange(0, "tree:"@.len() as int));
}

/// Two trees with the same revision hold the same bytes at the same paths, where no two
/// materials have the same digest.
pub proof fn revisions_tell_trees_apart<D: Fn(&[u8]) -> ContentDigest>(
    digest: D,
    left: ScanModel,
    right: ScanModel,
    revision: Seq<char>,
)
    requires
        forall|a: &[u8], b: &[u8], x: ContentDigest, y: ContentDigest|
            a@ != b@ && #[trigger] call_ensures(digest, (a,), x) && #[trigger] call_ensures(
                digest,
                (b,),
                y,
            ) ==> x@ != y@,
        files_are_named(left.files),
        files_are_named(right.files),
        is_revision(digest, left.files, revision),
        is_revision(digest, right.files, revision),
    ensures
        same_tree(left.files, right.files),
{
    let first = material_of(left.files, left.files.len() as int);
    let second = material_of(right.files, right.files.len() as int);
    let one = choose|found: Seq<char>| #[trigger]
        digests(digest, first, found) && revision == "tree:"@ + found;
    let other = choose|found: Seq<char>| #[trigger]
        digests(digest, second, found) && revision == "tree:"@ + found;
    assert(one =~= revision.skip("tree:"@.len() as int));
    assert(other =~= revision.skip("tree:"@.len() as int));
    material_tells_trees_apart(left.files, right.files);
}

/// What the revision of a tree is the digest of depends on nothing but its paths and their
/// digests, in order.
pub proof fn same_trees_have_the_same_material(
    left: Seq<FileModel>,
    right: Seq<FileModel>,
    count: int,
)
    requires
        count <= left.len(),
        same_tree(left, right),
    ensures
        material_of(left, count) == material_of(right, count),
    decreases count,
{
    if count > 0 {
        same_trees_have_the_same_material(left, right, count - 1);
        assert(left[count - 1].path == right[count - 1].path);
    }
}

/// What a revision is the digest of tells trees apart: where it is the same for two scans,
/// they hold the same paths with the same digests, in the same order.
pub proof fn material_tells_trees_apart(left: Seq<FileModel>, right: Seq<FileModel>)
    requires
        files_are_named(left),
        files_are_named(right),
        material_of(left, left.len() as int) == material_of(right, right.len() as int),
    ensures
        left.len() == right.len(),
        forall|i: int|
            0 <= i < left.len() ==> (#[trigger] left[i]).path == right[i].path && left[i].digest
                == right[i].digest,
    decreases left.len(),
{
    if left.len() == 0 || right.len() == 0 {
        if left.len() > 0 {
            material_starts(left, left.len() as int);
        }
        if right.len() > 0 {
            material_starts(right, right.len() as int);
        }
    } else {
        let a = left[0];
        let b = right[0];
        let c = material_of(left.drop_first(), left.len() - 1);
        let d = material_of(right.drop_first(), right.len() - 1);
        material_starts(left, left.len() as int);
        material_starts(right, right.len() as int);
        assert(!a.path.contains('\0') && !b.path.contains('\0'));
        bytes_lack(a.path, '\0');
        bytes_lack(b.path, '\0');
        digest_lacks_break(a.digest);
        digest_lacks_break(b.digest);
        let e = encode_utf8(a.digest) + seq![10u8] + c;
        let f = encode_utf8(b.digest) + seq![10u8] + d;
        assert(file_material(a) + c =~= encode_utf8(a.path) + seq![0u8] + e);
        assert(file_material(b) + d =~= encode_utf8(b.path) + seq![0u8] + f);
        first_mark_splits(encode_utf8(a.path), e, encode_utf8(b.path), f, 0u8);
        first_mark_splits(encode_utf8(a.digest), c, encode_utf8(b.digest), d, 10u8);
        encode_utf8_decode_utf8(a.path);
        encode_utf8_decode_utf8(b.path);
        encode_utf8_decode_utf8(a.digest);
        encode_utf8_decode_utf8(b.digest);
        let less = left.drop_first();
        let other = right.drop_first();
        assert forall|i: int| 0 <= i < less.len() implies valid_digest((#[trigger] less[i]).digest)
            && !less[i].path.contains('\0') by {
            assert(less[i] == left[i + 1]);
        }
        assert forall|i: int| 0 <= i < other.len() implies valid_digest(
            (#[trigger] other[i]).digest,
        ) && !other[i].path.contains('\0') by {
            assert(other[i] == right[i + 1]);
        }
        material_tells_trees_apart(less, other);
        assert forall|i: int| 0 <= i < left.len() implies (#[trigger] left[i]).path == right[i].path
            && left[i].digest == right[i].digest by {
            if i > 0 {
                assert(less[i - 1] == left[i] && other[i - 1] == right[i]);
            }
        }
    }
}

proof fn digest_lacks_break(text: Seq<char>)
    requires
        valid_digest(text),
    ensures
        forall|i: int|
            0 <= i < encode_utf8(text).len() ==> #[trigger] encode_utf8(text)[i] != 10u8,
{
    let end = algorithm_end(text, 0);
    algorithm_is_plain(text, 0);
    assert forall|i: int| 0 <= i < text.len() implies #[trigger] text[i] != '\n' by {
        if i < end {
            assert(algorithm_char(text[i]));
        } else if i > end {
            assert(digest_char(text[i]));
        }
    }
    bytes_lack(text, '\n');
}

} // verus!
