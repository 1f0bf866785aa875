//! Where a contribution comes from.

use crate::float::finite;
use crate::float::widen;
use crate::single::widened_is_finite;
use crate::float::widened;
use crate::float::join_sign;
use crate::float::with_sign;
use crate::locator::CanonicalSourceLocator;
use crate::text::characters;
use crate::text::same;
use crate::text::view_of;
use crate::text::NonEmptyText;
use vstd::prelude::*;

verus! {

/// A place in a source. Lines and columns count from one, bytes from zero.
#[derive(Clone, Copy, Debug, PartialEq, Eq, PartialOrd, Ord, Hash, Structural)]
pub struct SourcePosition {
    /// The line.
    pub line: u32,
    /// The column, in characters.
    pub column: u32,
    /// The byte offset.
    pub offset: u64,
}

/// Whether a position comes no later than another, by line and column.
pub open spec fn not_after(left: SourcePosition, right: SourcePosition) -> bool {
    left.line < right.line || (left.line == right.line && left.column <= right.column)
}

/// What is wrong with a range, if anything is.
pub open spec fn range_fault(start: SourcePosition, end: SourcePosition) -> Option<RangeError> {
    if start.line == 0 || start.column == 0 || end.line == 0 || end.column == 0 {
        Some(RangeError::ZeroBased)
    } else if end.offset < start.offset || !not_after(start, end) {
        Some(RangeError::Reversed)
    } else {
        None
    }
}

/// Why a range was rejected.
#[derive(Clone, Copy, Debug, PartialEq, Eq, Structural)]
pub enum RangeError {
    /// A line or a column was zero.
    ZeroBased,
    /// The end came before the start.
    Reversed,
}

impl RangeError {
    /// The message this error is shown with.
    pub open spec fn spec_message(&self) -> Seq<char> {
        match self {
            RangeError::ZeroBased => "lines and columns count from one"@,
            RangeError::Reversed => "a range must not end before it starts"@,
        }
    }

    /// The message this error is shown with.
    pub fn message(&self) -> (text: String)
        ensures
            text@ == self.spec_message(),
    {
        match self {
            RangeError::ZeroBased => "lines and columns count from one".to_owned(),
            RangeError::Reversed => "a range must not end before it starts".to_owned(),
        }
    }
}

/// A stretch of a source.
#[derive(Clone, Copy, Debug, PartialEq, Eq, PartialOrd, Ord, Hash, Structural)]
pub struct SourceRange {
    first: SourcePosition,
    last: SourcePosition,
}

impl SourceRange {
    /// Where the range starts.
    pub closed spec fn from(self) -> SourcePosition {
        self.first
    }

    /// Where the range ends.
    pub closed spec fn to(self) -> SourcePosition {
        self.last
    }

    /// The range between two positions.
    pub closed spec fn made(start: SourcePosition, end: SourcePosition) -> SourceRange {
        SourceRange { first: start, last: end }
    }

    /// The first position of any source, as a range.
    pub open spec fn at_origin() -> SourceRange {
        let start = SourcePosition { line: 1, column: 1, offset: 0 };
        SourceRange::made(start, start)
    }

    /// The range between two positions where that is a range, and the other one elsewhere.
    pub open spec fn made_or(
        start: SourcePosition,
        end: SourcePosition,
        other: SourceRange,
    ) -> SourceRange {
        if range_fault(start, end) is None {
            SourceRange::made(start, end)
        } else {
            other
        }
    }

    /// A range is what its two positions are.
    pub broadcast proof fn made_of_ends(start: SourcePosition, end: SourcePosition)
        ensures
            (#[trigger] SourceRange::made(start, end)).from() == start,
            SourceRange::made(start, end).to() == end,
    {
    }

    /// A range is determined by its two positions.
    pub proof fn ends_determine(self)
        ensures
            self == SourceRange::made(self.from(), self.to()),
    {
    }

    /// The range between two positions, which must count from one and be in order.
    pub fn new(start: SourcePosition, end: SourcePosition) -> (made: Result<Self, RangeError>)
        ensures
            match made {
                Ok(range) => range_fault(start, end) is None && range == SourceRange::made(
                    start,
                    end,
                ),
                Err(error) => range_fault(start, end) == Some(error),
            },
    {
        if start.line == 0 || start.column == 0 || end.line == 0 || end.column == 0 {
            Err(RangeError::ZeroBased)
        } else if end.offset < start.offset || end.line < start.line || (end.line == start.line
            && end.column < start.column) {
            Err(RangeError::Reversed)
        } else {
            Ok(SourceRange { first: start, last: end })
        }
    }

    /// The range between two positions where that is a range, and `other` elsewhere.
    pub fn new_or(start: SourcePosition, end: SourcePosition, other: SourceRange) -> (range: Self)
        ensures
            range == SourceRange::made_or(start, end, other),
    {
        match SourceRange::new(start, end) {
            Ok(range) => range,
            Err(_) => other,
        }
    }

    /// The first position of any source, as a range.
    pub fn origin() -> (range: Self)
        ensures
            range == SourceRange::at_origin(),
    {
        let start = SourcePosition { line: 1, column: 1, offset: 0 };
        SourceRange { first: start, last: start }
    }

    /// Where the range starts.
    pub fn start(&self) -> (position: SourcePosition)
        ensures
            position == self.from(),
    {
        self.first
    }

    /// Where the range ends.
    pub fn end(&self) -> (position: SourcePosition)
        ensures
            position == self.to(),
    {
        self.last
    }

    /// How many bytes the range covers, or zero where it ends before it starts.
    pub fn byte_length(&self) -> (length: u64)
        ensures
            length == (if self.to().offset >= self.from().offset {
                self.to().offset - self.from().offset
            } else {
                0
            }),
    {
        if self.last.offset >= self.first.offset {
            self.last.offset - self.first.offset
        } else {
            0
        }
    }
}

/// Whether `c` may stand in the name of a digest algorithm.
pub open spec fn algorithm_char(c: char) -> bool {
    ('a' <= c && c <= 'z') || ('0' <= c && c <= '9')
}

/// Whether `c` is a lower-case hexadecimal digit.
pub open spec fn digest_char(c: char) -> bool {
    ('0' <= c && c <= '9') || ('a' <= c && c <= 'f')
}

/// Where the algorithm name that starts at `at` ends.
pub open spec fn algorithm_end(text: Seq<char>, at: int) -> int
    decreases text.len() - at,
{
    if at < text.len() && algorithm_char(text[at]) {
        algorithm_end(text, at + 1)
    } else {
        at
    }
}

/// Whether `text` is a digest: an algorithm name, `:`, and hexadecimal digits.
pub open spec fn valid_digest(text: Seq<char>) -> bool {
    let end = algorithm_end(text, 0);
    &&& end > 0
    &&& end + 1 < text.len()
    &&& text[end] == ':'
    &&& forall|i: int| end < i < text.len() ==> digest_char(#[trigger] text[i])
}

/// Why a digest was rejected.
#[derive(Clone, Copy, Debug, PartialEq, Eq, Structural)]
pub enum DigestError {
    /// The text is not an algorithm name, `:`, and lower-case hexadecimal digits.
    Malformed,
}

impl DigestError {
    /// The message this error is shown with.
    pub open spec fn spec_message(&self) -> Seq<char> {
        "a digest is written algorithm:hexadecimal"@
    }

    /// The message this error is shown with.
    pub fn message(&self) -> (text: String)
        ensures
            text@ == self.spec_message(),
    {
        "a digest is written algorithm:hexadecimal".to_owned()
    }
}

/// A digest of some content, with the algorithm that made it.
#[derive(Debug, PartialEq, Eq, PartialOrd, Ord, Hash)]
pub struct ContentDigest {
    text: String,
}

impl View for ContentDigest {
    type V = Seq<char>;

    closed spec fn view(&self) -> Seq<char> {
        self.text@
    }
}

impl ContentDigest {
    #[verifier::type_invariant]
    spec fn holds_a_digest(&self) -> bool {
        valid_digest(self.text@)
    }

    /// Validates and wraps a digest.
    pub fn new(value: &str) -> (made: Result<Self, DigestError>)
        ensures
            made is Ok <==> valid_digest(value@),
            made matches Ok(digest) ==> digest@ == value@,
            made matches Err(error) ==> error == DigestError::Malformed,
    {
        let all = characters(value);
        let mut end: usize = 0;
        while end < all.len() && ((all[end] >= 'a' && all[end] <= 'z') || (all[end] >= '0'
            && all[end] <= '9'))
            invariant
                end <= all@.len(),
                all@ == value@,
                algorithm_end(value@, 0) == algorithm_end(value@, end as int),
            decreases all@.len() - end,
        {
            end = end + 1;
        }
        if end == 0 || all.len() - end < 2 || all[end] != ':' {
            return Err(DigestError::Malformed);
        }
        let mut at: usize = end + 1;
        while at < all.len()
            invariant
                end < at <= all@.len(),
                all@ == value@,
                end == algorithm_end(value@, 0),
                end > 0,
                end + 1 < value@.len(),
                value@[end as int] == ':',
                forall|i: int| end < i < at ==> digest_char(#[trigger] value@[i]),
            decreases all@.len() - at,
        {
            let c: char = all[at];
            if !((c >= '0' && c <= '9') || (c >= 'a' && c <= 'f')) {
                assert(!digest_char(value@[at as int]));
                return Err(DigestError::Malformed);
            }
            at = at + 1;
        }
        Ok(ContentDigest { text: value.to_owned() })
    }

    /// Borrows the digest.
    pub fn as_str(&self) -> (text: &str)
        ensures
            text@ == self@,
            valid_digest(text@),
    {
        proof {
            use_type_invariant(self);
        }
        self.text.as_str()
    }

    /// Whether two digests are the same.
    pub fn same(&self, other: &Self) -> (answer: bool)
        ensures
            answer == (self@ == other@),
    {
        same(self.text.as_str(), other.text.as_str())
    }
}

impl Clone for ContentDigest {
    fn clone(&self) -> (copy: Self)
        ensures
            copy@ == self@,
    {
        proof {
            use_type_invariant(self);
        }
        ContentDigest { text: self.text.clone() }
    }
}

/// How a piece of evidence was obtained.
#[derive(Clone, Copy, Debug, PartialEq, Eq, Structural)]
pub enum EvidenceMethod {
    /// Read from source by an analyzer.
    Deterministic,
    /// Inferred by a model.
    AiInferred,
    /// Stated by the user.
    UserDeclared,
}

/// The 32-bit pattern of one.
pub const SCORE_LIMIT: u32 = 0x3f80_0000;

/// Whether bits are those of a 32-bit number within zero through one.
///
/// The patterns of the numbers that are not negative are ordered as the numbers, so the
/// patterns of those within zero through one are those up to that of one. Negative zero
/// equals zero.
pub open spec fn valid_score(bits: u32) -> bool {
    bits <= 0x3f80_0000 || bits == 0x8000_0000
}

/// The 64-bit number with the value of a score.
pub open spec fn widened_score(bits: u32) -> u64 {
    if bits == 0x8000_0000 {
        with_sign(true, 0)
    } else {
        widened(bits as u64)
    }
}

/// Why a score was rejected.
#[derive(Clone, Copy, Debug, PartialEq, Eq, Structural)]
pub enum ScoreError {
    /// The number is not within zero through one.
    OutOfRange,
}

impl ScoreError {
    /// The message this error is shown with.
    pub open spec fn spec_message(&self) -> Seq<char> {
        "a confidence score must be within 0.0 through 1.0"@
    }

    /// The message this error is shown with.
    pub fn message(&self) -> (text: String)
        ensures
            text@ == self.spec_message(),
    {
        "a confidence score must be within 0.0 through 1.0".to_owned()
    }
}

/// A confidence score within zero through one, as the bits of a 32-bit number.
#[derive(Clone, Copy, Debug, PartialEq, Eq, Structural)]
pub struct Score {
    bits: u32,
}

impl View for Score {
    type V = u32;

    closed spec fn view(&self) -> u32 {
        self.bits
    }
}

impl Score {
    #[verifier::type_invariant]
    spec fn within_one(&self) -> bool {
        valid_score(self.bits)
    }

    /// The score with these bits.
    pub closed spec fn of_bits(bits: u32) -> Score {
        Score { bits }
    }

    /// A score is what its bits are.
    pub broadcast proof fn bits_of_score(bits: u32)
        ensures
            (#[trigger] Score::of_bits(bits))@ == bits,
    {
    }

    /// A score is determined by its bits.
    pub proof fn bits_determine(self)
        ensures
            self == Score::of_bits(self@),
    {
    }

    /// Wraps the bits of a 32-bit number within zero through one.
    pub fn new(bits: u32) -> (made: Result<Self, ScoreError>)
        ensures
            made is Ok <==> valid_score(bits),
            made matches Ok(score) ==> score@ == bits && score == Score::of_bits(bits),
            made matches Err(error) ==> error == ScoreError::OutOfRange,
    {
        if bits <= SCORE_LIMIT || bits == 0x8000_0000 {
            Ok(Score { bits })
        } else {
            Err(ScoreError::OutOfRange)
        }
    }

    /// The bits of the 32-bit number.
    pub fn get(self) -> (bits: u32)
        ensures
            bits == self@,
            valid_score(bits),
    {
        proof {
            use_type_invariant(&self);
        }
        self.bits
    }

    /// The bits of the 64-bit number with the same value.
    pub fn wide(self) -> (bits: u64)
        ensures
            bits == widened_score(self@),
            finite(bits),
    {
        proof {
            use_type_invariant(&self);
            if self.bits != 0x8000_0000 {
                widened_is_finite(self.bits as u64);
            }
        }
        if self.bits == 0x8000_0000 {
            join_sign(true, 0)
        } else {
            widen(self.bits as u64)
        }
    }
}

/// How sure a piece of evidence is.
#[derive(Clone, Copy, Debug, PartialEq, Eq, Structural)]
pub enum Confidence {
    /// Read from source, so there is nothing to weigh.
    Extracted,
    /// Inferred.
    Inferred {
        /// How likely.
        score: Score,
    },
    /// One of several readings.
    Ambiguous {
        /// How likely.
        score: Score,
    },
}

impl Confidence {
    /// The score, where there is one.
    pub open spec fn spec_score(self) -> Option<Score> {
        match self {
            Confidence::Extracted => None,
            Confidence::Inferred { score } => Some(score),
            Confidence::Ambiguous { score } => Some(score),
        }
    }

    /// The score, where there is one.
    pub fn score(&self) -> (score: Option<Score>)
        ensures
            score == self.spec_score(),
    {
        match self {
            Confidence::Extracted => None,
            Confidence::Inferred { score } => Some(*score),
            Confidence::Ambiguous { score } => Some(*score),
        }
    }
}

/// Provenance for one contribution.
#[derive(Debug, PartialEq, Eq)]
pub struct Evidence {
    /// The source the evidence was found in.
    pub source: CanonicalSourceLocator,
    /// The revision the source was read at.
    pub resolved_revision: Option<NonEmptyText>,
    /// The path within the source.
    pub path: Option<NonEmptyText>,
    /// The digest of the content.
    pub content_digest: ContentDigest,
    /// Where in the content.
    pub range: Option<SourceRange>,
    /// What produced it.
    pub producer: NonEmptyText,
    /// Which version of the producer.
    pub producer_version: NonEmptyText,
    /// How it was obtained.
    pub method: EvidenceMethod,
    /// How sure it is.
    pub confidence: Confidence,
}

/// What a piece of evidence says.
pub struct EvidenceModel {
    /// The source.
    pub source: Seq<char>,
    /// The revision.
    pub resolved_revision: Option<Seq<char>>,
    /// The path.
    pub path: Option<Seq<char>>,
    /// The digest.
    pub content_digest: Seq<char>,
    /// Where in the content.
    pub range: Option<SourceRange>,
    /// What produced it.
    pub producer: Seq<char>,
    /// Which version of the producer.
    pub producer_version: Seq<char>,
    /// How it was obtained.
    pub method: EvidenceMethod,
    /// How sure it is.
    pub confidence: Confidence,
}

impl View for Evidence {
    type V = EvidenceModel;

    open spec fn view(&self) -> EvidenceModel {
        EvidenceModel {
            source: self.source@,
            resolved_revision: view_of(self.resolved_revision),
            path: view_of(self.path),
            content_digest: self.content_digest@,
            range: self.range,
            producer: self.producer@,
            producer_version: self.producer_version@,
            method: self.method,
            confidence: self.confidence,
        }
    }
}

fn copy_text(text: &Option<NonEmptyText>) -> (copy: Option<NonEmptyText>)
    ensures
        view_of(copy) == view_of(*text),
{
    match text {
        Some(inner) => Some(inner.clone()),
        None => None,
    }
}

impl Clone for Evidence {
    fn clone(&self) -> (copy: Self)
        ensures
            copy@ == self@,
    {
        Evidence {
            source: self.source.clone(),
            resolved_revision: copy_text(&self.resolved_revision),
            path: copy_text(&self.path),
            content_digest: self.content_digest.clone(),
            range: self.range,
            producer: self.producer.clone(),
            producer_version: self.producer_version.clone(),
            method: self.method,
            confidence: self.confidence,
        }
    }
}

} // verus!
