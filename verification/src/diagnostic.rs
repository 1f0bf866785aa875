//! Diagnostics.

use crate::evidence::SourceRange;
use crate::locator::CanonicalSourceLocator;
use crate::text::view_of;
use crate::text::views;
use crate::text::NonEmptyText;
use vstd::prelude::*;

verus! {

/// How bad a finding is.
#[derive(Clone, Copy, Debug, PartialEq, Eq, PartialOrd, Ord, Hash, Structural)]
pub enum Severity {
    /// The work goes on.
    Warning,
    /// The work stops.
    Error,
}

/// A stable code for one kind of finding.
#[derive(Clone, Copy, Debug, PartialEq, Eq, PartialOrd, Ord, Hash, Structural)]
pub enum DiagnosticCode {
    /// A document the grammar does not accept.
    NostParseError,
    /// A language version this build does not read.
    NostVersionUnsupported,
    /// A locator linked more than once.
    NostDuplicateLinkSource,
    /// An alias claimed more than once.
    NostDuplicateLinkAlias,
    /// A schema name declared more than once.
    NostDuplicateSchemaName,
    /// A node name declared more than once.
    NostDuplicateDeclarationName,
    /// A record identifier used more than once.
    NostDuplicateId,
    /// A key set more than once in one block.
    NostDuplicatePropertyKey,
    /// A record identifier that is none.
    NostInvalidId,
    /// A record that does not match its schema.
    NostSchemaViolation,
    /// Two schemas that disagree on a field.
    NostSchemaConflict,
    /// An endpoint naming no declaration.
    NostUnresolvedEndpoint,
    /// An endpoint naming no link.
    NostUnknownLinkAlias,
    /// A malformed contribution or evidence block.
    NostInvalidEvidence,
    /// An integer that does not fit in 64 bits.
    NostIntegerOutOfRange,
    /// A number that is not finite, or a score out of range.
    NostNonFiniteNumber,
    /// A timestamp that is none.
    NostInvalidDatetime,
    /// A query that means nothing.
    CypherSemanticError,
    /// A query form this build does not run.
    CypherUnsupported,
    /// A label no record carries.
    CypherUnknownLabel,
    /// A query that was stopped.
    QueryCancelled,
    /// A write to a linked database.
    LinkedDatabaseReadOnly,
    /// A link that leads back to a source already open.
    LinkCycle,
    /// More linked sources than the limit.
    LinkLimitExceeded,
    /// A linked source that could not be opened.
    LinkUnavailable,
}

impl DiagnosticCode {
    /// The code as text.
    pub open spec fn text(self) -> Seq<char> {
        match self {
            DiagnosticCode::NostParseError => "NOST_PARSE_ERROR"@,
            DiagnosticCode::NostVersionUnsupported => "NOST_VERSION_UNSUPPORTED"@,
            DiagnosticCode::NostDuplicateLinkSource => "NOST_DUPLICATE_LINK_SOURCE"@,
            DiagnosticCode::NostDuplicateLinkAlias => "NOST_DUPLICATE_LINK_ALIAS"@,
            DiagnosticCode::NostDuplicateSchemaName => "NOST_DUPLICATE_SCHEMA_NAME"@,
            DiagnosticCode::NostDuplicateDeclarationName => "NOST_DUPLICATE_DECLARATION_NAME"@,
            DiagnosticCode::NostDuplicateId => "NOST_DUPLICATE_ID"@,
            DiagnosticCode::NostDuplicatePropertyKey => "NOST_DUPLICATE_PROPERTY_KEY"@,
            DiagnosticCode::NostInvalidId => "NOST_INVALID_ID"@,
            DiagnosticCode::NostSchemaViolation => "NOST_SCHEMA_VIOLATION"@,
            DiagnosticCode::NostSchemaConflict => "NOST_SCHEMA_CONFLICT"@,
            DiagnosticCode::NostUnresolvedEndpoint => "NOST_UNRESOLVED_ENDPOINT"@,
            DiagnosticCode::NostUnknownLinkAlias => "NOST_UNKNOWN_LINK_ALIAS"@,
            DiagnosticCode::NostInvalidEvidence => "NOST_INVALID_EVIDENCE"@,
            DiagnosticCode::NostIntegerOutOfRange => "NOST_INTEGER_OUT_OF_RANGE"@,
            DiagnosticCode::NostNonFiniteNumber => "NOST_NON_FINITE_NUMBER"@,
            DiagnosticCode::NostInvalidDatetime => "NOST_INVALID_DATETIME"@,
            DiagnosticCode::CypherSemanticError => "CYPHER_SEMANTIC_ERROR"@,
            DiagnosticCode::CypherUnsupported => "CYPHER_UNSUPPORTED"@,
            DiagnosticCode::CypherUnknownLabel => "CYPHER_UNKNOWN_LABEL"@,
            DiagnosticCode::QueryCancelled => "QUERY_CANCELLED"@,
            DiagnosticCode::LinkedDatabaseReadOnly => "LINKED_DATABASE_READ_ONLY"@,
            DiagnosticCode::LinkCycle => "LINK_CYCLE"@,
            DiagnosticCode::LinkLimitExceeded => "LINK_LIMIT_EXCEEDED"@,
            DiagnosticCode::LinkUnavailable => "LINK_UNAVAILABLE"@,
        }
    }

    /// The severity a finding of this kind has.
    pub open spec fn severity(self) -> Severity {
        match self {
            DiagnosticCode::NostUnresolvedEndpoint => Severity::Warning,
            DiagnosticCode::NostSchemaViolation => Severity::Warning,
            DiagnosticCode::CypherUnknownLabel => Severity::Warning,
            DiagnosticCode::LinkCycle => Severity::Warning,
            DiagnosticCode::LinkLimitExceeded => Severity::Warning,
            DiagnosticCode::LinkUnavailable => Severity::Warning,
            _ => Severity::Error,
        }
    }

    /// The code as text.
    pub fn as_str(self) -> (text: &'static str)
        ensures
            text@ == self.text(),
    {
        match self {
            DiagnosticCode::NostParseError => "NOST_PARSE_ERROR",
            DiagnosticCode::NostVersionUnsupported => "NOST_VERSION_UNSUPPORTED",
            DiagnosticCode::NostDuplicateLinkSource => "NOST_DUPLICATE_LINK_SOURCE",
            DiagnosticCode::NostDuplicateLinkAlias => "NOST_DUPLICATE_LINK_ALIAS",
            DiagnosticCode::NostDuplicateSchemaName => "NOST_DUPLICATE_SCHEMA_NAME",
            DiagnosticCode::NostDuplicateDeclarationName => "NOST_DUPLICATE_DECLARATION_NAME",
            DiagnosticCode::NostDuplicateId => "NOST_DUPLICATE_ID",
            DiagnosticCode::NostDuplicatePropertyKey => "NOST_DUPLICATE_PROPERTY_KEY",
            DiagnosticCode::NostInvalidId => "NOST_INVALID_ID",
            DiagnosticCode::NostSchemaViolation => "NOST_SCHEMA_VIOLATION",
            DiagnosticCode::NostSchemaConflict => "NOST_SCHEMA_CONFLICT",
            DiagnosticCode::NostUnresolvedEndpoint => "NOST_UNRESOLVED_ENDPOINT",
            DiagnosticCode::NostUnknownLinkAlias => "NOST_UNKNOWN_LINK_ALIAS",
            DiagnosticCode::NostInvalidEvidence => "NOST_INVALID_EVIDENCE",
            DiagnosticCode::NostIntegerOutOfRange => "NOST_INTEGER_OUT_OF_RANGE",
            DiagnosticCode::NostNonFiniteNumber => "NOST_NON_FINITE_NUMBER",
            DiagnosticCode::NostInvalidDatetime => "NOST_INVALID_DATETIME",
            DiagnosticCode::CypherSemanticError => "CYPHER_SEMANTIC_ERROR",
            DiagnosticCode::CypherUnsupported => "CYPHER_UNSUPPORTED",
            DiagnosticCode::CypherUnknownLabel => "CYPHER_UNKNOWN_LABEL",
            DiagnosticCode::QueryCancelled => "QUERY_CANCELLED",
            DiagnosticCode::LinkedDatabaseReadOnly => "LINKED_DATABASE_READ_ONLY",
            DiagnosticCode::LinkCycle => "LINK_CYCLE",
            DiagnosticCode::LinkLimitExceeded => "LINK_LIMIT_EXCEEDED",
            DiagnosticCode::LinkUnavailable => "LINK_UNAVAILABLE",
        }
    }

    /// The severity a finding of this kind has.
    pub fn default_severity(self) -> (severity: Severity)
        ensures
            severity == self.severity(),
    {
        match self {
            DiagnosticCode::NostUnresolvedEndpoint => Severity::Warning,
            DiagnosticCode::NostSchemaViolation => Severity::Warning,
            DiagnosticCode::CypherUnknownLabel => Severity::Warning,
            DiagnosticCode::LinkCycle => Severity::Warning,
            DiagnosticCode::LinkLimitExceeded => Severity::Warning,
            DiagnosticCode::LinkUnavailable => Severity::Warning,
            _ => Severity::Error,
        }
    }
}

/// A finding, with where it was found.
#[derive(Debug, PartialEq, Eq)]
pub struct Diagnostic {
    /// What kind of finding.
    pub code: DiagnosticCode,
    /// How bad it is.
    pub severity: Severity,
    /// What to tell the user.
    pub message: NonEmptyText,
    /// The source it was found in.
    pub source: Option<CanonicalSourceLocator>,
    /// Where in the source.
    pub range: Option<SourceRange>,
    /// Further facts.
    pub details: Vec<String>,
}

/// What a finding says.
pub struct DiagnosticModel {
    /// What kind of finding.
    pub code: DiagnosticCode,
    /// How bad it is.
    pub severity: Severity,
    /// What to tell the user.
    pub message: Seq<char>,
    /// The source it was found in.
    pub source: Option<Seq<char>>,
    /// Where in the source.
    pub range: Option<SourceRange>,
    /// Further facts.
    pub details: Seq<Seq<char>>,
}

impl View for Diagnostic {
    type V = DiagnosticModel;

    open spec fn view(&self) -> DiagnosticModel {
        DiagnosticModel {
            code: self.code,
            severity: self.severity,
            message: self.message@,
            source: view_of(self.source),
            range: self.range,
            details: views(self.details@),
        }
    }
}

} // verus!
