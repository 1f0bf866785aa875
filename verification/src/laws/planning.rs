//! What a plan counts and estimates, and when a budget lets a run start.

use crate::analysis::best_precision;
use crate::analysis::precision_of;
use crate::analysis::CapabilityModel;
use crate::analysis::PrecisionClass;
use crate::plan::bytes_counted;
use crate::plan::checked;
use crate::plan::files_counted;
use crate::plan::grouped;
use crate::plan::input_estimate;
use crate::plan::language_place;
use crate::plan::languages_account_for_every_file;
use crate::plan::languages_of;
use crate::plan::output_estimate;
use crate::plan::reason_count;
use crate::plan::BudgetModel;
use crate::plan::CheckModel;
use crate::plan::Counted;
use crate::plan::LanguageModel;
use crate::plan::TokenRange;
use crate::scan::FileModel;
use crate::scan::SkipReason;
use crate::scan::SkippedModel;
use crate::settings::AiMode;
use vstd::prelude::*;

verus! {

// -- Precision ---------------------------------------------------------------------

proof fn best_is_best(capabilities: Seq<CapabilityModel>, language: Seq<char>, count: int)
    requires
        0 <= count <= capabilities.len(),
    ensures
        forall|i: int|
            0 <= i < count && (#[trigger] capabilities[i]).language == language ==> goodness(
                capabilities[i].precision,
            ) <= goodness(best_precision(capabilities, language, count)),
        best_precision(capabilities, language, count) == PrecisionClass::Unsupported || exists|
            i: int,
        |
            0 <= i < count && (#[trigger] capabilities[i]).language == language
                && capabilities[i].precision == best_precision(capabilities, language, count),
    decreases count,
{
    if count > 0 {
        best_is_best(capabilities, language, count - 1);
        assert(capabilities[count - 1].language == capabilities[count - 1].language);
        let before = best_precision(capabilities, language, count - 1);
        let after = best_precision(capabilities, language, count);
        if after == before && before != PrecisionClass::Unsupported {
            let i = choose|i: int|
                0 <= i < count - 1 && (#[trigger] capabilities[i]).language == language
                    && capabilities[i].precision == before;
            assert(capabilities[i].language == language);
        }
    }
}

/// How good a precision is.
pub open spec fn goodness(precision: PrecisionClass) -> int {
    match precision {
        PrecisionClass::Unsupported => 0,
        PrecisionClass::Heuristic => 1,
        PrecisionClass::DeterministicSyntactic => 2,
    }
}

/// The precision for a language is that of an analyzer for it, and none for it has a better one.
/// Without an analyzer the language is unsupported.
pub proof fn the_best_analyzer_counts(
    capabilities: Seq<CapabilityModel>,
    language: Seq<char>,
    i: int,
)
    ensures
        0 <= i < capabilities.len() && capabilities[i].language == language ==> goodness(
            capabilities[i].precision,
        ) <= goodness(precision_of(capabilities, language)),
        precision_of(capabilities, language) != PrecisionClass::Unsupported ==> exists|k: int|
            0 <= k < capabilities.len() && (#[trigger] capabilities[k]).language == language
                && capabilities[k].precision == precision_of(capabilities, language),
{
    best_is_best(capabilities, language, capabilities.len() as int);
}

// -- Counting ----------------------------------------------------------------------

proof fn counts_of_a_front(
    files: Seq<FileModel>,
    more: Seq<FileModel>,
    registry: Seq<CapabilityModel>,
    what: Counted,
    count: int,
)
    requires
        0 <= count <= files.len() <= more.len(),
        forall|i: int| 0 <= i < files.len() ==> more[i] == #[trigger] files[i],
    ensures
        files_counted(more, registry, what, count) == files_counted(files, registry, what, count),
        bytes_counted(more, registry, what, count) == bytes_counted(files, registry, what, count),
    decreases count,
{
    if count > 0 {
        counts_of_a_front(files, more, registry, what, count - 1);
        assert(more[count - 1] == files[count - 1]);
    }
}

/// One file more is one more, with its bytes, of what it is counted for: covered where the best
/// analyzer of its language is deterministic, unsupported where there is none, and a candidate
/// in the full mode always and in any other where it is not covered.
pub proof fn a_file_is_counted_for_what_it_is(
    files: Seq<FileModel>,
    file: FileModel,
    registry: Seq<CapabilityModel>,
    mode: AiMode,
)
    ensures
        ({
            let n = files.len() as int;
            let more = files.push(file);
            let precision = precision_of(registry, file.language);
            let one = |yes: bool|
                if yes {
                    1int
                } else {
                    0int
                };
            &&& files_counted(more, registry, Counted::Covered, n + 1) == files_counted(
                files,
                registry,
                Counted::Covered,
                n,
            ) + one(precision == PrecisionClass::DeterministicSyntactic)
            &&& files_counted(more, registry, Counted::Unsupported, n + 1) == files_counted(
                files,
                registry,
                Counted::Unsupported,
                n,
            ) + one(precision == PrecisionClass::Unsupported)
            &&& files_counted(more, registry, Counted::Candidate(mode), n + 1) == files_counted(
                files,
                registry,
                Counted::Candidate(mode),
                n,
            ) + one(mode == AiMode::Full || precision != PrecisionClass::DeterministicSyntactic)
            &&& bytes_counted(more, registry, Counted::Candidate(mode), n + 1) == bytes_counted(
                files,
                registry,
                Counted::Candidate(mode),
                n,
            ) + one(mode == AiMode::Full || precision != PrecisionClass::DeterministicSyntactic)
                * file.bytes
            &&& files_counted(Seq::empty(), registry, Counted::Candidate(mode), 0) == 0
        }),
{
    let n = files.len() as int;
    let more = files.push(file);
    counts_of_a_front(files, more, registry, Counted::Covered, n);
    counts_of_a_front(files, more, registry, Counted::Unsupported, n);
    counts_of_a_front(files, more, registry, Counted::Candidate(mode), n);
    assert(more[n] == file);
}

/// How many of the first `count` files are of a language.
pub open spec fn files_of(files: Seq<FileModel>, language: Seq<char>, count: int) -> nat
    decreases count,
{
    if count <= 0 {
        0
    } else if files[count - 1].language == language {
        files_of(files, language, count - 1) + 1
    } else {
        files_of(files, language, count - 1)
    }
}

/// How many bytes the first `count` files of a language have.
pub open spec fn bytes_of(files: Seq<FileModel>, language: Seq<char>, count: int) -> nat
    decreases count,
{
    if count <= 0 {
        0
    } else if files[count - 1].language == language {
        bytes_of(files, language, count - 1) + files[count - 1].bytes as nat
    } else {
        bytes_of(files, language, count - 1)
    }
}

/// Whether a language is summarized as its files are.
pub open spec fn is_summary(
    one: LanguageModel,
    files: Seq<FileModel>,
    registry: Seq<CapabilityModel>,
    count: int,
) -> bool {
    &&& one.files == files_of(files, one.language, count)
    &&& one.bytes == bytes_of(files, one.language, count)
    &&& one.precision == precision_of(registry, one.language)
}

/// Whether a language is among others.
pub open spec fn is_listed(languages: Seq<LanguageModel>, language: Seq<char>) -> bool {
    exists|i: int| 0 <= i < languages.len() && (#[trigger] languages[i]).language == language
}

proof fn place_is_within(languages: Seq<LanguageModel>, language: Seq<char>, at: int)
    requires
        0 <= at <= languages.len(),
    ensures
        at <= language_place(languages, language, at) <= languages.len(),
        forall|i: int|
            at <= i < language_place(languages, language, at) ==> crate::text::precedes(
                (#[trigger] languages[i]).language,
                language,
            ),
        language_place(languages, language, at) < languages.len() ==> !crate::text::precedes(
            languages[language_place(languages, language, at)].language,
            language,
        ),
    decreases languages.len() - at,
{
    if at < languages.len() && crate::text::precedes(languages[at].language, language) {
        place_is_within(languages, language, at + 1);
    }
}

proof fn unlisted_has_no_files(
    files: Seq<FileModel>,
    registry: Seq<CapabilityModel>,
    language: Seq<char>,
    count: int,
)
    requires
        0 <= count <= files.len(),
        !is_listed(languages_of(files, registry, count), language),
        forall|k: int|
            0 <= k < count ==> is_listed(
                languages_of(files, registry, count),
                (#[trigger] files[k]).language,
            ),
    ensures
        files_of(files, language, count) == 0,
        bytes_of(files, language, count) == 0,
{
    none_of_it(files, language, count);
}

proof fn none_of_it(files: Seq<FileModel>, language: Seq<char>, count: int)
    requires
        0 <= count <= files.len(),
        forall|k: int| 0 <= k < count ==> (#[trigger] files[k]).language != language,
    ensures
        files_of(files, language, count) == 0,
        bytes_of(files, language, count) == 0,
    decreases count,
{
    if count > 0 {
        none_of_it(files, language, count - 1);
    }
}

/// The languages of a plan are exactly those of its files, and each is summarized by how many
/// files it has, by their bytes, and by the best precision there is for it.
pub proof fn languages_are_those_of_the_files(
    files: Seq<FileModel>,
    registry: Seq<CapabilityModel>,
    count: int,
)
    requires
        0 <= count <= files.len(),
    ensures
        forall|k: int|
            0 <= k < count ==> is_listed(
                languages_of(files, registry, count),
                (#[trigger] files[k]).language,
            ),
        forall|i: int|
            0 <= i < languages_of(files, registry, count).len() ==> is_summary(
                #[trigger] languages_of(files, registry, count)[i],
                files,
                registry,
                count,
            ) && languages_of(files, registry, count)[i].files > 0,
    decreases count,
{
    if count > 0 {
        languages_are_those_of_the_files(files, registry, count - 1);
        languages_account_for_every_file(files, registry, count - 1);
        languages_account_for_every_file(files, registry, count);
        let before = languages_of(files, registry, count - 1);
        let after = languages_of(files, registry, count);
        let file = files[count - 1];
        let at = language_place(before, file.language, 0);
        place_is_within(before, file.language, 0);
        let there = at < before.len() && before[at].language == file.language;
        assert(after[at].language == file.language);
        assert forall|i: int| 0 <= i < before.len() implies is_listed(
            after,
            (#[trigger] before[i]).language,
        ) by {
            let k = if there || i < at {
                i
            } else {
                i + 1
            };
            assert(after[k].language == before[i].language);
        }
        assert forall|k: int| 0 <= k < count implies is_listed(after, (#[trigger] files[k]).language) by {
            if k < count - 1 {
                let i = choose|i: int|
                    0 <= i < before.len() && (#[trigger] before[i]).language == files[k].language;
                assert(is_listed(after, before[i].language));
            }
        }
        if !there {
            assert(!is_listed(before, file.language)) by {
                if is_listed(before, file.language) {
                    let i = choose|i: int|
                        0 <= i < before.len() && (#[trigger] before[i]).language == file.language;
                    if i < at {
                        crate::order::texts_are_asymmetric(before[i].language, file.language);
                    } else if i > at {
                        let m = i + 1;
                        assert(after[m] == before[i]);
                        assert(crate::text::precedes(after[at].language, after[m].language));
                        crate::order::texts_are_asymmetric(after[at].language, after[m].language);
                    }
                }
            }
            unlisted_has_no_files(files, registry, file.language, count - 1);
        }
        assert forall|i: int| 0 <= i < after.len() implies is_summary(
            #[trigger] after[i],
            files,
            registry,
            count,
        ) && after[i].files > 0 by {
            if i == at {
                if there {
                    assert(is_summary(before[at], files, registry, count - 1));
                }
            } else {
                let k = if there || i < at {
                    i
                } else {
                    i - 1
                };
                assert(after[i] == before[k]);
                assert(is_summary(before[k], files, registry, count - 1));
                assert(after[i].language != file.language) by {
                    if i < at {
                        assert(crate::text::precedes(after[i].language, after[at].language));
                        crate::order::texts_are_asymmetric(after[i].language, after[at].language);
                    } else {
                        assert(crate::text::precedes(after[at].language, after[i].language));
                        crate::order::texts_are_asymmetric(after[at].language, after[i].language);
                    }
                }
            }
        }
    }
}

// -- Estimates ---------------------------------------------------------------------

/// The estimate for what is sent lies between a sixth and a half of the bytes, and two hundred
/// more for each unit. Where there is no unit there is nothing to send.
pub proof fn an_input_estimate_follows_the_bytes(bytes: u64, units: u64)
    requires
        units <= 1_000_000_000_000,
    ensures
        units == 0 ==> input_estimate(bytes, units) == (TokenRange { low: 0, high: 0 }),
        units > 0 && bytes <= 1_000_000_000_000_000_000 ==> ({
            let low = input_estimate(bytes, units).low - 200 * units;
            let high = input_estimate(bytes, units).high - 200 * units;
            &&& 6 * low <= bytes < 6 * low + 6
            &&& 2 * high <= bytes < 2 * high + 2
        }),
{
    assert(units * crate::plan::PACKET_OVERHEAD_TOKENS == 200 * units) by (nonlinear_arith)
        requires
            crate::plan::PACKET_OVERHEAD_TOKENS == 200,
    ;
}

/// The estimate for what comes back is from sixty-four to five hundred and twelve for each unit.
pub proof fn an_output_estimate_follows_the_units(units: u64)
    requires
        units <= 1_000_000_000_000,
    ensures
        output_estimate(units).low == 64 * units,
        output_estimate(units).high == 512 * units,
{
    assert(units * crate::plan::OUTPUT_TOKENS_LOW == 64 * units) by (nonlinear_arith)
        requires
            crate::plan::OUTPUT_TOKENS_LOW == 64,
    ;
    assert(units * crate::plan::OUTPUT_TOKENS_HIGH == 512 * units) by (nonlinear_arith)
        requires
            crate::plan::OUTPUT_TOKENS_HIGH == 512,
    ;
}

/// A run fits exactly where neither pessimistic estimate is above its ceiling. What does not fit
/// is told by the ceiling that it crosses, that of the input first, with both numbers.
pub proof fn a_budget_lets_through_what_fits(
    budget: BudgetModel,
    input: TokenRange,
    output: TokenRange,
)
    ensures
        checked(budget, input, output) is Fits <==> (budget.max_input_tokens matches Some(limit)
            ==> input.high <= limit) && (budget.max_output_tokens matches Some(limit) ==> output.high
            <= limit),
        budget.max_input_tokens matches Some(limit) ==> (input.high > limit ==> checked(
            budget,
            input,
            output,
        ) == (CheckModel::Exceeds {
            field: "max_input_tokens"@,
            estimated: input.high,
            limit,
        })),
        budget.max_output_tokens matches Some(limit) ==> (output.high > limit && (
        budget.max_input_tokens matches Some(other) ==> input.high <= other) ==> checked(
            budget,
            input,
            output,
        ) == (CheckModel::Exceeds {
            field: "max_output_tokens"@,
            estimated: output.high,
            limit,
        })),
{
}

// -- Exclusions --------------------------------------------------------------------

/// One exclusion more counts for its own reason and for no other.
pub proof fn an_exclusion_counts_for_its_reason(
    skipped: Seq<SkippedModel>,
    one: SkippedModel,
    reason: SkipReason,
)
    ensures
        reason_count(skipped.push(one), reason, skipped.len() as int + 1) == reason_count(
            skipped,
            reason,
            skipped.len() as int,
        ) + (if one.reason == reason {
            1int
        } else {
            0int
        }),
{
    reasons_of_a_front(skipped, one, reason, skipped.len() as int);
}

proof fn reasons_of_a_front(
    skipped: Seq<SkippedModel>,
    one: SkippedModel,
    reason: SkipReason,
    count: int,
)
    requires
        0 <= count <= skipped.len(),
    ensures
        reason_count(skipped.push(one), reason, count) == reason_count(skipped, reason, count),
    decreases count,
{
    if count > 0 {
        reasons_of_a_front(skipped, one, reason, count - 1);
    }
}

/// The exclusions of a plan are listed under their reasons with how many have it.
pub proof fn exclusions_are_listed_by_reason(skipped: Seq<SkippedModel>, i: int)
    requires
        skipped.len() <= u64::MAX,
        0 <= i < grouped(skipped).len(),
    ensures
        grouped(skipped)[i].1 == reason_count(skipped, grouped(skipped)[i].0, skipped.len() as int),
{
    reasons_fit(skipped, grouped(skipped)[i].0, skipped.len() as int);
}

proof fn reasons_fit(skipped: Seq<SkippedModel>, reason: SkipReason, count: int)
    requires
        0 <= count <= skipped.len(),
    ensures
        reason_count(skipped, reason, count) <= count,
    decreases count,
{
    if count > 0 {
        reasons_fit(skipped, reason, count - 1);
    }
}

} // verus!
