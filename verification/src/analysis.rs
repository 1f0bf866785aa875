//! What analyzers can do.

use crate::text::same;
use crate::text::views;
use crate::text::views_push;
use crate::text::NonEmptyText;
use vstd::prelude::*;

verus! {

/// How precise an analysis is.
#[derive(Clone, Copy, Debug, PartialEq, Eq, Structural)]
pub enum PrecisionClass {
    /// No analyzer covers it.
    Unsupported,
    /// An analyzer guesses.
    Heuristic,
    /// An analyzer reads the syntax, and says the same each time.
    DeterministicSyntactic,
}

/// A kind of fact an analyzer finds.
#[derive(Clone, Copy, Debug, PartialEq, Eq, Structural)]
pub enum FactKind {
    /// A function.
    Function,
}

impl PrecisionClass {
    /// How good a precision is: a better one is larger.
    pub open spec fn rank(self) -> int {
        match self {
            PrecisionClass::Unsupported => 0,
            PrecisionClass::Heuristic => 1,
            PrecisionClass::DeterministicSyntactic => 2,
        }
    }

    /// Whether the analysis says the same each time.
    pub open spec fn deterministic(self) -> bool {
        self == PrecisionClass::DeterministicSyntactic
    }

    /// The better of two precisions.
    pub open spec fn better(self, other: PrecisionClass) -> PrecisionClass {
        if self.rank() >= other.rank() {
            self
        } else {
            other
        }
    }

    /// Whether the analysis says the same each time.
    pub fn is_deterministic(self) -> (answer: bool)
        ensures
            answer == self.deterministic(),
    {
        self == PrecisionClass::DeterministicSyntactic
    }

    /// Whether there is something left for AI to add: where no analyzer covers the source,
    /// and where one only guesses.
    pub fn eligible_for_ai(self) -> (answer: bool)
        ensures
            answer == !self.deterministic(),
    {
        self != PrecisionClass::DeterministicSyntactic
    }

    fn rank_number(self) -> (rank: u8)
        ensures
            rank == self.rank(),
    {
        match self {
            PrecisionClass::Unsupported => 0,
            PrecisionClass::Heuristic => 1,
            PrecisionClass::DeterministicSyntactic => 2,
        }
    }
}

/// What an analyzer can do for one language.
#[derive(Debug, PartialEq, Eq)]
pub struct AnalyzerCapability {
    /// The language.
    pub language: NonEmptyText,
    /// How precise it is.
    pub precision: PrecisionClass,
    /// The facts it finds.
    pub facts: Vec<FactKind>,
}

/// What an analyzer can do for one language.
pub struct CapabilityModel {
    /// The language.
    pub language: Seq<char>,
    /// How precise it is.
    pub precision: PrecisionClass,
    /// The facts it finds.
    pub facts: Seq<FactKind>,
}

impl View for AnalyzerCapability {
    type V = CapabilityModel;

    open spec fn view(&self) -> CapabilityModel {
        CapabilityModel {
            language: self.language@,
            precision: self.precision,
            facts: self.facts@,
        }
    }
}

/// The analyzers a build has.
#[derive(Debug, PartialEq, Eq)]
pub struct CapabilityRegistry {
    capabilities: Vec<AnalyzerCapability>,
}

impl View for CapabilityRegistry {
    type V = Seq<CapabilityModel>;

    closed spec fn view(&self) -> Seq<CapabilityModel> {
        views(self.capabilities@)
    }
}

/// The best precision that the first `count` capabilities have for a language.
pub open spec fn best_precision(
    capabilities: Seq<CapabilityModel>,
    language: Seq<char>,
    count: int,
) -> PrecisionClass
    decreases count,
{
    if count <= 0 {
        PrecisionClass::Unsupported
    } else {
        let before = best_precision(capabilities, language, count - 1);
        if capabilities[count - 1].language == language {
            before.better(capabilities[count - 1].precision)
        } else {
            before
        }
    }
}

/// The best precision there is for a language.
pub open spec fn precision_of(
    capabilities: Seq<CapabilityModel>,
    language: Seq<char>,
) -> PrecisionClass {
    best_precision(capabilities, language, capabilities.len() as int)
}

impl CapabilityRegistry {
    /// A registry without analyzers.
    pub fn new() -> (made: Self)
        ensures
            made@ == Seq::<CapabilityModel>::empty(),
    {
        let made = CapabilityRegistry { capabilities: Vec::new() };
        assert(made@ =~= Seq::<CapabilityModel>::empty());
        made
    }

    /// Adds what an analyzer can do.
    pub fn register(&mut self, capability: AnalyzerCapability)
        ensures
            final(self)@ == old(self)@.push(capability@),
    {
        proof {
            views_push(self.capabilities@, capability);
        }
        self.capabilities.push(capability);
    }

    /// The best precision there is for a language.
    pub fn precision(&self, language: &str) -> (precision: PrecisionClass)
        ensures
            precision == precision_of(self@, language@),
    {
        let ghost models = self@;
        let mut best = PrecisionClass::Unsupported;
        let mut at: usize = 0;
        while at < self.capabilities.len()
            invariant
                at <= self.capabilities@.len(),
                models == views(self.capabilities@),
                best == best_precision(models, language@, at as int),
            decreases self.capabilities@.len() - at,
        {
            assert(models[at as int] == self.capabilities@[at as int]@);
            let one = &self.capabilities[at];
            if same(one.language.as_str(), language) && one.precision.rank_number()
                > best.rank_number() {
                best = one.precision;
            }
            at = at + 1;
        }
        best
    }
}

} // verus!
