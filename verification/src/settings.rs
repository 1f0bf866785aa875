//! Settings that decide how much is analyzed, and how far links are followed.

use vstd::prelude::*;

verus! {

/// Whether, and for what, AI is asked.
#[derive(Clone, Copy, Debug, PartialEq, Eq, Structural)]
pub enum AiMode {
    /// AI is not asked.
    Off,
    /// AI reads what an analyzer could not cover.
    Auto,
    /// AI reads everything, instead of the analyzers.
    Full,
}

/// What is done at a budget ceiling.
#[derive(Clone, Copy, Debug, PartialEq, Eq, Structural)]
pub enum BudgetAction {
    /// The user is asked.
    Ask,
    /// The run stops.
    Stop,
}

/// How source is analyzed.
#[derive(Debug, PartialEq, Eq)]
pub struct AnalysisSettings {
    /// Whether, and for what, AI is asked.
    pub ai_mode: AiMode,
    /// Hard input-token ceiling, or unlimited.
    pub max_input_tokens: Option<u64>,
    /// Hard output-token ceiling, or unlimited.
    pub max_output_tokens: Option<u64>,
    /// Advisory cost ceiling, as a decimal string.
    pub max_cost_usd: Option<String>,
    /// What to do at a ceiling.
    pub on_budget_exceeded: BudgetAction,
}

/// How far links are followed.
#[derive(Clone, Copy, Debug, PartialEq, Eq, Structural)]
pub struct FederationSettings {
    /// How many links may be followed one behind another.
    pub max_link_depth: u64,
    /// How many linked databases may be opened.
    pub max_link_databases: u64,
    /// How long opening one may take.
    pub link_open_timeout_ms: u64,
}

} // verus!
