//! Who owns a record, and why.

use crate::evidence::ContentDigest;
use crate::evidence::Evidence;
use crate::evidence::EvidenceModel;
use crate::copies::copy_all;
use crate::id::SourceUnitId;
use crate::text::characters;
use crate::text::same;
use crate::text::views;
use crate::text::NonEmptyText;
use vstd::prelude::*;

verus! {

/// What kind of owner a contribution has.
#[derive(Clone, Copy, Debug, PartialEq, Eq, PartialOrd, Ord, Hash, Structural)]
pub enum OwnerKind {
    /// A deterministic analyzer.
    Analyzer,
    /// An AI analysis.
    AiAnalysis,
    /// The user.
    User,
}

/// Who owns a contribution.
#[derive(Debug, PartialEq, Eq)]
pub enum Owner {
    /// An analyzer, by name and version.
    Analyzer {
        /// The analyzer name.
        name: NonEmptyText,
        /// The analyzer version, which is part of its identity.
        version: NonEmptyText,
    },
    /// An AI analysis, by the digest of the contract it ran under.
    AiAnalysis {
        /// The digest of the analysis contract.
        contract_digest: ContentDigest,
    },
    /// The user.
    User,
    /// An owner written as one string.
    Named {
        /// The string.
        name: NonEmptyText,
    },
}

/// What an owner says.
pub enum OwnerModel {
    /// An analyzer.
    Analyzer {
        /// The analyzer name.
        name: Seq<char>,
        /// The analyzer version.
        version: Seq<char>,
    },
    /// An AI analysis.
    AiAnalysis {
        /// The digest of the analysis contract.
        contract_digest: Seq<char>,
    },
    /// The user.
    User,
    /// An owner written as one string.
    Named {
        /// The string.
        name: Seq<char>,
    },
}

impl View for Owner {
    type V = OwnerModel;

    open spec fn view(&self) -> OwnerModel {
        match self {
            Owner::Analyzer { name, version } => OwnerModel::Analyzer {
                name: name@,
                version: version@,
            },
            Owner::AiAnalysis { contract_digest } => OwnerModel::AiAnalysis {
                contract_digest: contract_digest@,
            },
            Owner::User => OwnerModel::User,
            Owner::Named { name } => OwnerModel::Named { name: name@ },
        }
    }
}

/// Whether an owner's name is that of an AI analysis.
pub open spec fn names_ai(name: Seq<char>) -> bool {
    name.len() >= 3 && name[0] == 'a' && name[1] == 'i' && name[2] == ':'
}

/// The kind an owner's name says: `user` is the user, `ai:` starts an AI analysis, and
/// everything else is an analyzer.
pub open spec fn kind_of_name(name: Seq<char>) -> OwnerKind {
    if name == "user"@ {
        OwnerKind::User
    } else if names_ai(name) {
        OwnerKind::AiAnalysis
    } else {
        OwnerKind::Analyzer
    }
}

/// The kind an owner's name says.
pub fn owner_kind(name: &str) -> (kind: OwnerKind)
    ensures
        kind == kind_of_name(name@),
{
    if same(name, "user") {
        return OwnerKind::User;
    }
    let all = characters(name);
    if all.len() >= 3 && all[0] == 'a' && all[1] == 'i' && all[2] == ':' {
        OwnerKind::AiAnalysis
    } else {
        OwnerKind::Analyzer
    }
}

impl OwnerModel {
    /// What kind of owner this is.
    pub open spec fn kind(self) -> OwnerKind {
        match self {
            OwnerModel::Analyzer { .. } => OwnerKind::Analyzer,
            OwnerModel::AiAnalysis { .. } => OwnerKind::AiAnalysis,
            OwnerModel::User => OwnerKind::User,
            OwnerModel::Named { name } => kind_of_name(name),
        }
    }
}

impl Owner {
    /// The owner one string names.
    pub fn new(name: NonEmptyText) -> (owner: Self)
        ensures
            owner@ == (OwnerModel::Named { name: name@ }),
    {
        Owner::Named { name }
    }

    /// The user.
    pub fn user() -> (owner: Self)
        ensures
            owner@ == OwnerModel::User,
    {
        Owner::User
    }

    /// What kind of owner this is.
    pub fn kind(&self) -> (kind: OwnerKind)
        ensures
            kind == self@.kind(),
    {
        match self {
            Owner::Analyzer { .. } => OwnerKind::Analyzer,
            Owner::AiAnalysis { .. } => OwnerKind::AiAnalysis,
            Owner::User => OwnerKind::User,
            Owner::Named { name } => owner_kind(name.as_str()),
        }
    }

    /// Whether a contribution of this owner must carry evidence. Only the user's need not.
    pub fn requires_evidence(&self) -> (answer: bool)
        ensures
            answer == (self@.kind() != OwnerKind::User),
    {
        self.kind() != OwnerKind::User
    }

    /// Whether two owners are the same.
    pub fn same(&self, other: &Self) -> (answer: bool)
        ensures
            answer == (self@ == other@),
    {
        match (self, other) {
            (
                Owner::Analyzer { name, version },
                Owner::Analyzer { name: other_name, version: other_version },
            ) => same(name.as_str(), other_name.as_str()) && same(
                version.as_str(),
                other_version.as_str(),
            ),
            (
                Owner::AiAnalysis { contract_digest },
                Owner::AiAnalysis { contract_digest: other_digest },
            ) => contract_digest.same(other_digest),
            (Owner::User, Owner::User) => true,
            (Owner::Named { name }, Owner::Named { name: other_name }) => same(
                name.as_str(),
                other_name.as_str(),
            ),
            _ => false,
        }
    }
}

impl Clone for Owner {
    fn clone(&self) -> (copy: Self)
        ensures
            copy@ == self@,
    {
        match self {
            Owner::Analyzer { name, version } => Owner::Analyzer {
                name: name.clone(),
                version: version.clone(),
            },
            Owner::AiAnalysis { contract_digest } => Owner::AiAnalysis {
                contract_digest: contract_digest.clone(),
            },
            Owner::User => Owner::User,
            Owner::Named { name } => Owner::Named { name: name.clone() },
        }
    }
}

/// One producer's claim on a record.
#[derive(Debug, PartialEq, Eq)]
pub struct Contribution {
    /// Who produced it.
    pub owner: Owner,
    /// The source unit it derives from.
    pub source_unit: SourceUnitId,
    /// The evidence for it.
    pub evidence: Vec<Evidence>,
}

/// What a contribution says.
pub struct ContributionModel {
    /// Who produced it.
    pub owner: OwnerModel,
    /// The source unit it derives from.
    pub source_unit: SourceUnitId,
    /// The evidence for it.
    pub evidence: Seq<EvidenceModel>,
}

impl View for Contribution {
    type V = ContributionModel;

    open spec fn view(&self) -> ContributionModel {
        ContributionModel {
            owner: self.owner@,
            source_unit: self.source_unit,
            evidence: views(self.evidence@),
        }
    }
}

impl Clone for Contribution {
    fn clone(&self) -> (copy: Self)
        ensures
            copy@ == self@,
    {
        Contribution {
            owner: self.owner.clone(),
            source_unit: self.source_unit,
            evidence: copy_all(&self.evidence),
        }
    }
}

} // verus!
