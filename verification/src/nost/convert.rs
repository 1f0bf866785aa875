//! Conversion between a parsed `.nost` document and a [`Graph`].
//!
//! Graph content round-trips exactly: identifiers, labels, properties, links, schemas,
//! contributions, and evidence all survive `.nost` to graph and back.
//!
//! The text does not round-trip byte for byte on the first pass. Two things a `.nost` file
//! carries are file-local rather than graph data: a node's declaration name, which export
//! regenerates from the record identifier; and which of a record's labels were written as
//! schema names and which in the reserved `labels` property, where export puts every label
//! matching a declared schema in the schema list and the rest in `labels`. Both are stable
//! after one pass.
//!
//! An aliased or locator endpoint names a declaration inside a linked source, so importing
//! one is refused with [`ConversionError::ExternalEndpoint`] rather than quietly degraded.

use super::format::rank;
use super::list_model;
use super::validate::id_fault;
use super::validate::unit_fault;
use super::ContributionBlock;
use super::ContributionBlockModel;
use super::EdgeDeclaration;
use super::EdgeDeclarationModel;
use super::Endpoint;
use super::EndpointModel;
use super::EvidenceBlock;
use super::EvidenceBlockModel;
use super::EvidenceField;
use super::EvidenceFieldModel;
use super::EvidenceValue;
use super::EvidenceValueModel;
use super::LinkDeclaration;
use super::LinkDeclarationModel;
use super::NodeDeclaration;
use super::NodeDeclarationModel;
use super::OwnerDeclaration;
use super::OwnerDeclarationModel;
use super::Property;
use super::RecordBody;
use super::RecordBodyModel;
use super::SchemaDeclaration;
use super::SchemaDeclarationModel;
use super::SourceFile;
use super::SourceFileModel;
use super::Spanned;
use super::Value;
use super::ValueModel;
use super::LANGUAGE_VERSION;
use crate::contribution::Contribution;
use crate::contribution::ContributionModel;
use crate::contribution::Owner;
use crate::contribution::OwnerModel;
use crate::copies::Copied;
use crate::decimal::parse_double;
use crate::decimal::parse_float;
use crate::decimal::pattern_bound;
use crate::decimal::read_double;
use crate::decimal::read_number;
use crate::evidence::range_fault;
use crate::evidence::valid_digest;
use crate::evidence::valid_score;
use crate::evidence::Confidence;
use crate::evidence::ContentDigest;
use crate::evidence::DigestError;
use crate::evidence::Evidence;
use crate::evidence::EvidenceMethod;
use crate::evidence::EvidenceModel;
use crate::evidence::Score;
use crate::evidence::ScoreError;
use crate::evidence::SourcePosition;
use crate::evidence::SourceRange;
use crate::float::finite;
use crate::float::single_format;
use crate::float::Format;
use crate::graph::pairs;
use crate::graph::pairs_push;
use crate::graph::Edge;
use crate::graph::EdgeModel;
use crate::graph::Graph;
use crate::graph::GraphModel;
use crate::graph::Node;
use crate::graph::NodeModel;
use crate::graph::NodeReference;
use crate::graph::ReferenceModel;
use crate::id::bytes_precede;
use crate::id::bytes_precede_irreflexive;
use crate::id::bytes_precede_total;
use crate::id::bytes_precede_transitive;
use crate::id::half_byte;
use crate::id::hex_digit;
use crate::id::LocalEdgeId;
use crate::id::LocalNodeId;
use crate::id::Minter;
use crate::id::SourceUnitId;
use crate::link::Link;
use crate::link::LinkModel;
use crate::locator::locator_fault;
use crate::locator::CanonicalSourceLocator;
use crate::name::ascii_name;
use crate::name::name_fault;
use crate::name::reserved;
use crate::name::DeclarationName;
use crate::name::Label;
use crate::name::LinkAlias;
use crate::name::PropertyKey;
use crate::name::RelationName;
use crate::number::digits_of;
use crate::number::parse_signed;
use crate::number::parse_unsigned;
use crate::number::read_signed;
use crate::number::read_unsigned;
use crate::number::write_digits;
use crate::order::keys_are_asymmetric;
use crate::order::keys_are_ranked;
use crate::order::keys_are_total;
use crate::order::keys_before;
use crate::order::sort;
use crate::order::sorted;
use crate::order::texts_are_asymmetric;
use crate::order::texts_are_ranked;
use crate::order::Ordered;
use crate::property::copy_bytes;
use crate::property::valid_datetime;
use crate::property::DateTime;
use crate::property::DateTimeError;
use crate::property::FiniteF64;
use crate::property::NumberError;
use crate::property::PropertyModel;
use crate::property::PropertyScalar;
use crate::property::PropertyValue;
use crate::property::ScalarModel;
use crate::schema::EndpointConstraint;
use crate::schema::EndpointConstraintModel;
use crate::schema::Schema;
use crate::schema::SchemaField;
use crate::schema::SchemaFieldModel;
use crate::schema::SchemaModel;
use crate::text::characters;
use crate::text::is_before;
use crate::text::joined;
use crate::text::precedes;
use crate::text::same;
use crate::text::string_of;
use crate::text::view_of;
use crate::text::views;
use crate::text::views_push;
use crate::text::NonEmptyText;
use crate::mutate::issued_chain;
use crate::mutate::issued_on;
use crate::mutate::issued_step;
use crate::mutate::issued_still;
use vstd::prelude::*;
use vstd::string::StringExecFns;

verus! {

/// The reserved property key holding a record identifier.
pub const ID_KEY: &'static str = "id";

/// The reserved property key holding labels beyond a record's schema names.
pub const LABELS_KEY: &'static str = "labels";

/// The label an unresolved endpoint receives.
pub const PLACEHOLDER_LABEL: &'static str = "Placeholder";

/// Why a document could not be turned into a graph.
/// 
/// These are caller-contract violations rather than findings about analyzed content. A
/// document that merely breaks a semantic rule is reported by [`super::validate`] instead.
#[derive(Debug, PartialEq, Eq)]
pub enum ConversionError {
    /// The document declares a language version this build does not implement.
    UnsupportedVersion {
        /// The version declared.
        found: u32,
    },
    /// A value could not be represented in the model.
    InvalidValue {
        /// Where the value appeared.
        range: SourceRange,
        /// What was wrong with it.
        reason: String,
    },
    /// An aliased or locator endpoint, which needs link resolution.
    ExternalEndpoint {
        /// Where the endpoint appeared.
        range: SourceRange,
        /// The link the endpoint names.
        link: String,
    },
    /// Every identifier that was minted is in use, as many as can be counted.
    IdentifiersSpent {
        /// Where the record appeared that needs one.
        range: SourceRange,
    },
}

/// What a conversion error says.
pub enum ConversionErrorModel {
    /// The document declares a language version this build does not implement.
    UnsupportedVersion {
        /// The version declared.
        found: u32,
    },
    /// A value could not be represented in the model.
    InvalidValue {
        /// Where the value appeared.
        range: SourceRange,
        /// What was wrong with it.
        reason: Seq<char>,
    },
    /// An aliased or locator endpoint, which needs link resolution.
    ExternalEndpoint {
        /// Where the endpoint appeared.
        range: SourceRange,
        /// The link the endpoint names.
        link: Seq<char>,
    },
    /// Every identifier that was minted is in use.
    IdentifiersSpent {
        /// Where the record appeared that needs one.
        range: SourceRange,
    },
}

impl View for ConversionError {
    type V = ConversionErrorModel;

    open spec fn view(&self) -> ConversionErrorModel {
        match self {
            ConversionError::UnsupportedVersion { found } => ConversionErrorModel::UnsupportedVersion {
                found: *found,
            },
            ConversionError::InvalidValue { range, reason } => ConversionErrorModel::InvalidValue {
                range: *range,
                reason: reason@,
            },
            ConversionError::ExternalEndpoint { range, link } => ConversionErrorModel::ExternalEndpoint {
                range: *range,
                link: link@,
            },
            ConversionError::IdentifiersSpent { range } => ConversionErrorModel::IdentifiersSpent {
                range: *range,
            },
        }
    }
}

impl Copied for ConversionError {
    fn copied(&self) -> (copy: Self) {
        match self {
            ConversionError::UnsupportedVersion { found } => ConversionError::UnsupportedVersion {
                found: *found,
            },
            ConversionError::InvalidValue { range, reason } => ConversionError::InvalidValue {
                range: *range,
                reason: reason.copied(),
            },
            ConversionError::ExternalEndpoint { range, link } => ConversionError::ExternalEndpoint {
                range: *range,
                link: link.copied(),
            },
            ConversionError::IdentifiersSpent { range } => ConversionError::IdentifiersSpent {
                range: *range,
            },
        }
    }
}

impl Clone for ConversionError {
    fn clone(&self) -> (copy: Self)
        ensures
            copy@ == self@,
    {
        self.copied()
    }
}

impl ConversionErrorModel {
    /// Where the problem is, when it has a position.
    pub open spec fn place(self) -> Option<SourceRange> {
        match self {
            ConversionErrorModel::UnsupportedVersion { .. } => None,
            ConversionErrorModel::InvalidValue { range, .. } => Some(range),
            ConversionErrorModel::ExternalEndpoint { range, .. } => Some(range),
            ConversionErrorModel::IdentifiersSpent { range } => Some(range),
        }
    }

    /// How the error is shown.
    pub open spec fn text(self) -> Seq<char> {
        match self {
            ConversionErrorModel::UnsupportedVersion { found } => "language version "@ + digits_of(
                found as nat,
            ) + " is not supported; this build implements "@ + digits_of(LANGUAGE_VERSION as nat),
            ConversionErrorModel::InvalidValue { reason, .. } => reason,
            ConversionErrorModel::ExternalEndpoint { link, .. } => "the endpoint in "@ + link
                + " names a declaration in a linked source, and resolving one needs link resolution, which this build does not implement"@,
            ConversionErrorModel::IdentifiersSpent { .. } => "every identifier that was minted is already in use"@,
        }
    }
}

impl ConversionError {
    /// Where the problem is, when it has a position.
    pub fn range(&self) -> (place: Option<SourceRange>)
        ensures
            place == self@.place(),
    {
        match self {
            ConversionError::UnsupportedVersion { .. } => None,
            ConversionError::InvalidValue { range, .. } => Some(*range),
            ConversionError::ExternalEndpoint { range, .. } => Some(*range),
            ConversionError::IdentifiersSpent { range } => Some(*range),
        }
    }

    /// How the error is shown.
    pub fn to_string(&self) -> (text: String)
        ensures
            text@ == self@.text(),
    {
        match self {
            ConversionError::UnsupportedVersion { found } => {
                let mut text = "language version ".to_owned();
                write_digits(&mut text, *found as u64);
                text.append(" is not supported; this build implements ");
                write_digits(&mut text, LANGUAGE_VERSION as u64);
                text
            }
            ConversionError::InvalidValue { reason, .. } => reason.clone(),
            ConversionError::ExternalEndpoint { link, .. } => {
                let mut text = joined("the endpoint in ", link.as_str());
                text.append(
                    " names a declaration in a linked source, and resolving one needs link resolution, which this build does not implement",
                );
                text
            }
            ConversionError::IdentifiersSpent { .. } => {
                "every identifier that was minted is already in use".to_owned()
            }
        }
    }
}

/// What a conversion yields.
pub type Converted<A> = Result<A, ConversionErrorModel>;

/// A refused value.
pub open spec fn refused<A>(range: SourceRange, reason: Seq<char>) -> Converted<A> {
    Err(ConversionErrorModel::InvalidValue { range, reason })
}

fn invalid(range: SourceRange, reason: &str) -> (error: ConversionError)
    ensures
        error@ == (ConversionErrorModel::InvalidValue { range, reason: reason@ }),
{
    ConversionError::InvalidValue { range, reason: reason.to_owned() }
}

/// A refused value, with its text before a reason.
fn invalid_because(range: SourceRange, first: &str, second: &str, third: &str) -> (error:
    ConversionError)
    ensures
        error@ == (ConversionErrorModel::InvalidValue { range, reason: first@ + second@ + third@ }),
{
    let mut reason = joined(first, second);
    reason.append(third);
    ConversionError::InvalidValue { range, reason }
}

// -- Orders ------------------------------------------------------------------------

impl Ordered for Label {
    open spec fn before(left: Seq<char>, right: Seq<char>) -> bool {
        precedes(left, right)
    }

    proof fn before_is_asymmetric(left: Seq<char>, right: Seq<char>) {
        texts_are_asymmetric(left, right);
    }

    proof fn before_is_ranked(first: Seq<char>, second: Seq<char>, third: Seq<char>) {
        texts_are_ranked(first, second, third);
    }

    fn comes_before(&self, other: &Self) -> (answer: bool) {
        self.is_before(other)
    }
}

impl Ordered for (PropertyKey, PropertyValue) {
    open spec fn before(
        left: (Seq<char>, PropertyModel),
        right: (Seq<char>, PropertyModel),
    ) -> bool {
        precedes(left.0, right.0)
    }

    proof fn before_is_asymmetric(
        left: (Seq<char>, PropertyModel),
        right: (Seq<char>, PropertyModel),
    ) {
        texts_are_asymmetric(left.0, right.0);
    }

    proof fn before_is_ranked(
        first: (Seq<char>, PropertyModel),
        second: (Seq<char>, PropertyModel),
        third: (Seq<char>, PropertyModel),
    ) {
        texts_are_ranked(first.0, second.0, third.0);
    }

    fn comes_before(&self, other: &Self) -> (answer: bool) {
        self.0.is_before(&other.0)
    }
}

impl Ordered for Link {
    open spec fn before(left: LinkModel, right: LinkModel) -> bool {
        precedes(left.source, right.source)
    }

    proof fn before_is_asymmetric(left: LinkModel, right: LinkModel) {
        texts_are_asymmetric(left.source, right.source);
    }

    proof fn before_is_ranked(first: LinkModel, second: LinkModel, third: LinkModel) {
        texts_are_ranked(first.source, second.source, third.source);
    }

    fn comes_before(&self, other: &Self) -> (answer: bool) {
        self.source.is_before(&other.source)
    }
}

impl Ordered for Schema {
    open spec fn before(left: SchemaModel, right: SchemaModel) -> bool {
        precedes(left.name, right.name)
    }

    proof fn before_is_asymmetric(left: SchemaModel, right: SchemaModel) {
        texts_are_asymmetric(left.name, right.name);
    }

    proof fn before_is_ranked(first: SchemaModel, second: SchemaModel, third: SchemaModel) {
        texts_are_ranked(first.name, second.name, third.name);
    }

    fn comes_before(&self, other: &Self) -> (answer: bool) {
        self.name.is_before(&other.name)
    }
}

impl Ordered for SchemaField {
    open spec fn before(left: SchemaFieldModel, right: SchemaFieldModel) -> bool {
        precedes(left.key, right.key)
    }

    proof fn before_is_asymmetric(left: SchemaFieldModel, right: SchemaFieldModel) {
        texts_are_asymmetric(left.key, right.key);
    }

    proof fn before_is_ranked(
        first: SchemaFieldModel,
        second: SchemaFieldModel,
        third: SchemaFieldModel,
    ) {
        texts_are_ranked(first.key, second.key, third.key);
    }

    fn comes_before(&self, other: &Self) -> (answer: bool) {
        self.key.is_before(&other.key)
    }
}

/// Bytes: coming before is asymmetric.
proof fn bytes_are_asymmetric(a: Seq<u8>, b: Seq<u8>)
    requires
        a.len() == b.len(),
        bytes_precede(a, b),
    ensures
        !bytes_precede(b, a),
{
    if bytes_precede(b, a) {
        bytes_precede_transitive(a, b, a);
        bytes_precede_irreflexive(a);
    }
}

/// Bytes: not coming before is transitive.
proof fn bytes_are_ranked(a: Seq<u8>, b: Seq<u8>, c: Seq<u8>)
    requires
        a.len() == b.len() == c.len(),
        !bytes_precede(b, a),
        !bytes_precede(c, b),
    ensures
        !bytes_precede(c, a),
{
    bytes_precede_total(a, b);
    bytes_precede_total(b, c);
    if bytes_precede(c, a) {
        if a != b && b != c {
            bytes_precede_transitive(a, b, c);
            bytes_precede_transitive(a, c, a);
        }
        bytes_precede_irreflexive(a);
    }
}

impl Ordered for Node {
    open spec fn before(left: NodeModel, right: NodeModel) -> bool {
        bytes_precede(left.id@, right.id@)
    }

    proof fn before_is_asymmetric(left: NodeModel, right: NodeModel) {
        left.id.length();
        right.id.length();
        bytes_are_asymmetric(left.id@, right.id@);
    }

    proof fn before_is_ranked(first: NodeModel, second: NodeModel, third: NodeModel) {
        first.id.length();
        second.id.length();
        third.id.length();
        bytes_are_ranked(first.id@, second.id@, third.id@);
    }

    fn comes_before(&self, other: &Self) -> (answer: bool) {
        self.id.is_before(&other.id)
    }
}

impl Ordered for Edge {
    open spec fn before(left: EdgeModel, right: EdgeModel) -> bool {
        bytes_precede(left.id@, right.id@)
    }

    proof fn before_is_asymmetric(left: EdgeModel, right: EdgeModel) {
        left.id.length();
        right.id.length();
        bytes_are_asymmetric(left.id@, right.id@);
    }

    proof fn before_is_ranked(first: EdgeModel, second: EdgeModel, third: EdgeModel) {
        first.id.length();
        second.id.length();
        third.id.length();
        bytes_are_ranked(first.id@, second.id@, third.id@);
    }

    fn comes_before(&self, other: &Self) -> (answer: bool) {
        self.id.is_before(&other.id)
    }
}

/// What an owner is ordered by: its kind, and what it is called.
pub open spec fn owner_key(owner: OwnerModel) -> Seq<Seq<char>> {
    match owner {
        OwnerModel::Analyzer { name, version } => seq![rank(owner.kind()), name, version],
        OwnerModel::AiAnalysis { contract_digest } => seq![
            rank(owner.kind()),
            contract_digest,
            Seq::empty(),
        ],
        OwnerModel::User => seq![rank(owner.kind()), Seq::empty(), Seq::empty()],
        OwnerModel::Named { name } => seq![rank(owner.kind()), name, Seq::empty()],
    }
}

impl Ordered for Contribution {
    open spec fn before(left: ContributionModel, right: ContributionModel) -> bool {
        keys_before(owner_key(left.owner), owner_key(right.owner), 0) || (owner_key(left.owner)
            == owner_key(right.owner) && bytes_precede(left.source_unit@, right.source_unit@))
    }

    proof fn before_is_asymmetric(left: ContributionModel, right: ContributionModel) {
        left.source_unit.length();
        right.source_unit.length();
        if keys_before(owner_key(left.owner), owner_key(right.owner), 0) {
            keys_are_asymmetric(owner_key(left.owner), owner_key(right.owner), 0);
            if owner_key(left.owner) == owner_key(right.owner) {
                keys_are_asymmetric(owner_key(left.owner), owner_key(right.owner), 0);
            }
        } else {
            bytes_are_asymmetric(left.source_unit@, right.source_unit@);
            if keys_before(owner_key(right.owner), owner_key(left.owner), 0) {
                keys_are_asymmetric(owner_key(right.owner), owner_key(left.owner), 0);
            }
        }
    }

    proof fn before_is_ranked(
        first: ContributionModel,
        second: ContributionModel,
        third: ContributionModel,
    ) {
        first.source_unit.length();
        second.source_unit.length();
        third.source_unit.length();
        let a = owner_key(first.owner);
        let b = owner_key(second.owner);
        let c = owner_key(third.owner);
        keys_are_ranked(a, b, c, 0);
        if a == c {
            if keys_before(a, b, 0) {
                keys_are_ranked(b, c, a, 0);
                assert(!keys_before(a, b, 0) || keys_before(b, c, 0) || keys_before(c, a, 0));
            }
            if !keys_before(a, b, 0) {
                keys_are_total(a, b, 0);
                assert(a =~= b);
                bytes_are_ranked(first.source_unit@, second.source_unit@, third.source_unit@);
            }
        }
    }

    fn comes_before(&self, other: &Self) -> (answer: bool) {
        let left = key_of_owner(&self.owner);
        let right = key_of_owner(&other.owner);
        let ghost a = views(left@);
        let ghost b = views(right@);
        let mut at: usize = 0;
        while at < left.len()
            invariant
                at <= left@.len(),
                left@.len() == right@.len() == 3,
                a == views(left@),
                b == views(right@),
                a == owner_key(self@.owner),
                b == owner_key(other@.owner),
                keys_before(a, b, 0) == keys_before(a, b, at as int),
                forall|i: int| 0 <= i < at ==> a[i] == b[i],
            decreases left@.len() - at,
        {
            assert(a[at as int] == left@[at as int]@ && b[at as int] == right@[at as int]@);
            if is_before(left[at].as_str(), right[at].as_str()) {
                return true;
            }
            if !same(left[at].as_str(), right[at].as_str()) {
                return false;
            }
            at = at + 1;
        }
        assert(a =~= b);
        self.source_unit.is_before(&other.source_unit)
    }
}

fn key_of_owner(owner: &Owner) -> (key: Vec<String>)
    ensures
        key@.len() == 3,
        views(key@) == owner_key(owner@),
{
    let mut key: Vec<String> = Vec::new();
    key.push(super::format::rank_text(owner.kind()));
    match owner {
        Owner::Analyzer { name, version } => {
            key.push(name.as_str().to_owned());
            key.push(version.as_str().to_owned());
        }
        Owner::AiAnalysis { contract_digest } => {
            key.push(contract_digest.as_str().to_owned());
            key.push(String::new());
        }
        Owner::User => {
            key.push(String::new());
            key.push(String::new());
        }
        Owner::Named { name } => {
            key.push(name.as_str().to_owned());
            key.push(String::new());
        }
    }
    assert(views(key@) =~= owner_key(owner@));
    key
}

// -- Names made of identifiers -----------------------------------------------------

/// Bytes as lower-case hexadecimal digits, two for each byte.
pub open spec fn hex_of(bytes: Seq<u8>) -> Seq<char> {
    Seq::new(2 * bytes.len(), |half: int| hex_digit(half_byte(bytes, half)))
}

/// The declaration name of a node with this identifier.
pub open spec fn name_of(id: LocalNodeId) -> Seq<char> {
    seq!['n', '_'] + hex_of(id@)
}

fn half_digit(half: u8) -> (digit: char)
    requires
        half < 16,
    ensures
        digit == hex_digit(half as int),
{
    if half < 10 {
        (48u8 + half) as char
    } else {
        (87u8 + half) as char
    }
}

pub(crate) fn write_hex(out: &mut String, bytes: &[u8])
    ensures
        final(out)@ == old(out)@ + hex_of(bytes@),
{
    let ghost before = out@;
    let ghost whole = hex_of(bytes@);
    let mut at: usize = 0;
    assert(before + whole.take(0) =~= before);
    while at < bytes.len()
        invariant
            at <= bytes@.len(),
            whole == hex_of(bytes@),
            out@ == before + whole.take(2 * at as int),
        decreases bytes@.len() - at,
    {
        let byte: u8 = bytes[at];
        out.push(half_digit(byte / 16));
        out.push(half_digit(byte % 16));
        assert(whole[2 * at as int] == hex_digit(byte as int / 16));
        assert(whole[2 * at as int + 1] == hex_digit(byte as int % 16));
        at = at + 1;
        assert(out@ =~= before + whole.take(2 * at as int));
    }
    assert(whole.take(whole.len() as int) =~= whole);
}

/// The name of a node is a name.
pub proof fn generated_names_are_names(id: LocalNodeId)
    ensures
        ascii_name(name_of(id)),
        !reserved(name_of(id)),
{
    let name = name_of(id);
    id.length();
    assert(name.len() == 34);
    assert forall|i: int| 1 <= i < name.len() implies crate::unicode::ascii_letter(
        #[trigger] name[i],
    ) || crate::unicode::ascii_digit(name[i]) || name[i] == '_' by {
        if i >= 2 {
            assert(name[i] == hex_of(id@)[i - 2]);
            let half = half_byte(id@, i - 2);
            assert(0 <= half < 16);
        }
    }
    reveal_strlit("as");
    reveal_strlit("bytes");
    reveal_strlit("datetime");
    reveal_strlit("edge");
    reveal_strlit("false");
    reveal_strlit("node");
    reveal_strlit("schema");
    reveal_strlit("true");
}

/// Nodes with different identifiers have different names.
pub proof fn generated_names_differ(left: LocalNodeId, right: LocalNodeId)
    requires
        name_of(left) == name_of(right),
    ensures
        left == right,
{
    left.length();
    right.length();
    assert forall|i: int| 0 <= i < 16 implies left@[i] == right@[i] by {
        let a = name_of(left);
        let b = name_of(right);
        assert(a[2 * i + 2] == hex_of(left@)[2 * i]);
        assert(b[2 * i + 2] == hex_of(right@)[2 * i]);
        assert(a[2 * i + 3] == hex_of(left@)[2 * i + 1]);
        assert(b[2 * i + 3] == hex_of(right@)[2 * i + 1]);
        let high = half_byte(left@, 2 * i);
        let low = half_byte(left@, 2 * i + 1);
        let high2 = half_byte(right@, 2 * i);
        let low2 = half_byte(right@, 2 * i + 1);
        assert(hex_digit(high) == hex_digit(high2));
        assert(hex_digit(low) == hex_digit(low2));
        assert(high == high2 && low == low2);
    }
    assert(left@ =~= right@);
    LocalNodeId::same_bytes(left, right);
}

/// The declaration name export gives a record, derived from its identifier.
///
/// A declaration name is file-local: it exists so an edge can reference a node, and the
/// model has nowhere to keep one. Deriving it from the identifier makes it unique without a
/// counter and stable across exports.
pub fn generated_name(id: LocalNodeId) -> (name: DeclarationName)
    ensures
        name@ == name_of(id),
{
    let mut text = String::new();
    text.push('n');
    text.push('_');
    let bytes = id.to_bytes();
    write_hex(&mut text, &bytes);
    assert(text@ =~= name_of(id));
    proof {
        generated_names_are_names(id);
    }
    DeclarationName::literal(text.as_str())
}

// -- Values ------------------------------------------------------------------------

/// The scalar a written value stands for.
pub open spec fn scalar_from(value: ValueModel, range: SourceRange) -> Converted<ScalarModel> {
    match value {
        ValueModel::Boolean(flag) => Ok(ScalarModel::Boolean(flag)),
        ValueModel::Integer(text) => match read_signed(text) {
            Some(number) => Ok(ScalarModel::Integer(number as i64)),
            None => refused(
                range,
                "the integer "@ + text + " does not fit in a signed 64-bit value"@,
            ),
        },
        ValueModel::Float(text) => match read_double(text) {
            None => refused(range, text + " is not a number"@),
            Some(bits) => if finite(bits) {
                Ok(ScalarModel::Float(bits))
            } else {
                refused(range, text + ": "@ + NumberError::NotFinite.spec_message())
            },
        },
        ValueModel::String(text) => Ok(ScalarModel::String(text)),
        ValueModel::Bytes { decoded, .. } => Ok(ScalarModel::Bytes(decoded)),
        ValueModel::DateTime(text) => if valid_datetime(text) {
            Ok(ScalarModel::DateTime(text))
        } else {
            refused(range, text + ": "@ + DateTimeError::Malformed.spec_message())
        },
        ValueModel::List(_) => refused(range, "a list holds scalars only, so it does not nest"@),
    }
}

/// The scalars the items from `at` on stand for, behind those before them.
pub open spec fn scalars_from(
    items: Seq<Spanned<ValueModel>>,
    at: int,
    before: Seq<ScalarModel>,
) -> Converted<Seq<ScalarModel>>
    decreases items.len() - at,
{
    if at < 0 || at >= items.len() {
        Ok(before)
    } else {
        match scalar_from(items[at].value, items[at].range) {
            Err(wrong) => Err(wrong),
            Ok(found) => scalars_from(items, at + 1, before.push(found)),
        }
    }
}

/// The property value a written value stands for.
pub open spec fn property_from(value: Spanned<ValueModel>) -> Converted<PropertyModel> {
    match value.value {
        ValueModel::List(items) => match scalars_from(items, 0, Seq::empty()) {
            Err(wrong) => Err(wrong),
            Ok(found) => Ok(PropertyModel::List(found)),
        },
        _ => match scalar_from(value.value, value.range) {
            Err(wrong) => Err(wrong),
            Ok(found) => Ok(PropertyModel::Scalar(found)),
        },
    }
}

fn scalar(value: &Value, range: SourceRange) -> (made: Result<PropertyScalar, ConversionError>)
    ensures
        match made {
            Ok(found) => scalar_from(value@, range) matches Ok(model) && model == found@,
            Err(error) => scalar_from(value@, range) matches Err(wrong) && wrong == error@,
        },
{
    match value {
        Value::Boolean(flag) => Ok(PropertyScalar::Boolean(*flag)),
        Value::Integer(text) => match parse_signed(text.as_str()) {
            Some(number) => Ok(PropertyScalar::Integer(number)),
            None => Err(
                invalid_because(
                    range,
                    "the integer ",
                    text.as_str(),
                    " does not fit in a signed 64-bit value",
                ),
            ),
        },
        Value::Float(text) => match parse_double(text.as_str()) {
            None => {
                let reason = joined(text.as_str(), " is not a number");
                Err(invalid(range, reason.as_str()))
            }
            Some(bits) => match FiniteF64::new(bits) {
                Ok(number) => Ok(PropertyScalar::Float(number)),
                Err(error) => Err(
                    invalid_because(range, text.as_str(), ": ", error.message().as_str()),
                ),
            },
        },
        Value::String(text) => Ok(PropertyScalar::String(text.clone())),
        Value::Bytes { decoded, .. } => Ok(PropertyScalar::Bytes(copy_bytes(decoded))),
        Value::DateTime(text) => match DateTime::new(text.as_str()) {
            Ok(moment) => Ok(PropertyScalar::DateTime(moment)),
            Err(error) => Err(
                invalid_because(range, text.as_str(), ": ", error.message().as_str()),
            ),
        },
        Value::List(_) => Err(invalid(range, "a list holds scalars only, so it does not nest")),
    }
}

fn property_value(value: &Spanned<Value>) -> (made: Result<PropertyValue, ConversionError>)
    ensures
        match made {
            Ok(found) => property_from(value@) matches Ok(model) && model == found@,
            Err(error) => property_from(value@) matches Err(wrong) && wrong == error@,
        },
{
    match &value.value {
        Value::List(items) => {
            proof {
                list_model(items@);
            }
            let ghost models = views(items@);
            let mut list: Vec<PropertyScalar> = Vec::new();
            assert(views(list@) =~= Seq::<ScalarModel>::empty());
            let mut at: usize = 0;
            while at < items.len()
                invariant
                    at <= items@.len(),
                    models == views(items@),
                    value@.value == ValueModel::List(models),
                    scalars_from(models, 0, Seq::empty()) == scalars_from(
                        models,
                        at as int,
                        views(list@),
                    ),
                decreases items@.len() - at,
            {
                assert(models[at as int] == items@[at as int]@);
                match scalar(&items[at].value, items[at].range) {
                    Err(error) => {
                        return Err(error);
                    }
                    Ok(found) => {
                        proof {
                            views_push(list@, found);
                        }
                        list.push(found);
                    }
                }
                at = at + 1;
            }
            Ok(PropertyValue::List(list))
        }
        other => match scalar(other, value.range) {
            Err(error) => Err(error),
            Ok(found) => Ok(PropertyValue::from_scalar(found)),
        },
    }
}

// -- Record bodies -----------------------------------------------------------------

/// The identifier, the labels and the ordinary properties a record body carries.
pub struct Parts {
    /// The identifier, as written.
    pub id: Option<Seq<char>>,
    /// The labels beyond the schema names.
    pub extra: Seq<Seq<char>>,
    /// The properties.
    pub properties: Seq<(Seq<char>, PropertyModel)>,
}

/// The labels the items from `at` on hold, behind those before them.
pub open spec fn label_items(
    items: Seq<Spanned<ValueModel>>,
    at: int,
    before: Seq<Seq<char>>,
) -> Converted<Seq<Seq<char>>>
    decreases items.len() - at,
{
    if at < 0 || at >= items.len() {
        Ok(before)
    } else {
        match items[at].value {
            ValueModel::String(text) => label_items(items, at + 1, before.push(text)),
            _ => refused(
                items[at].range,
                "the reserved key `labels` holds a list of strings"@,
            ),
        }
    }
}

/// What a record body carries after one more property.
pub open spec fn part_added(parts: Parts, property: super::PropertyModel) -> Converted<Parts> {
    let key = property.key.value;
    if key == "id"@ {
        match property.value.value {
            ValueModel::String(text) => Ok(Parts { id: Some(text), ..parts }),
            _ => refused(
                property.value.range,
                "the reserved key `id` holds a quoted identifier"@,
            ),
        }
    } else if key == "labels"@ {
        match property.value.value {
            ValueModel::List(items) => match label_items(items, 0, parts.extra) {
                Err(wrong) => Err(wrong),
                Ok(extra) => Ok(Parts { extra, ..parts }),
            },
            _ => refused(
                property.value.range,
                "the reserved key `labels` holds a list of strings"@,
            ),
        }
    } else {
        match name_fault(key) {
            Some(wrong) => refused(
                property.key.range,
                key + " is not a property key: "@ + wrong.spec_message(),
            ),
            None => match property_from(property.value) {
                Err(wrong) => Err(wrong),
                Ok(value) => Ok(Parts { properties: parts.properties.push((key, value)), ..parts }),
            },
        }
    }
}

/// What the properties from `at` on carry, behind what those before them carry.
pub open spec fn parts_from(
    properties: Seq<super::PropertyModel>,
    at: int,
    parts: Parts,
) -> Converted<Parts>
    decreases properties.len() - at,
{
    if at < 0 || at >= properties.len() {
        Ok(parts)
    } else {
        match part_added(parts, properties[at]) {
            Err(wrong) => Err(wrong),
            Ok(next) => parts_from(properties, at + 1, next),
        }
    }
}

/// A record body that carries nothing.
pub open spec fn no_parts() -> Parts {
    Parts { id: None, extra: Seq::empty(), properties: Seq::empty() }
}

/// What a record body carries.
pub open spec fn parts_of(record: RecordBodyModel) -> Converted<Parts> {
    parts_from(record.properties, 0, no_parts())
}

/// The identifier, the labels and the ordinary properties of a record body.
struct RecordParts {
    id: Option<String>,
    extra: Vec<String>,
    properties: Vec<(PropertyKey, PropertyValue)>,
}

impl RecordParts {
    spec fn model(&self) -> Parts {
        Parts {
            id: view_of(self.id),
            extra: views(self.extra@),
            properties: pairs(self.properties@),
        }
    }
}

fn add_labels(extra: &mut Vec<String>, items: &Vec<Spanned<Value>>) -> (made: Result<
    (),
    ConversionError,
>)
    ensures
        match made {
            Ok(_) => label_items(views(items@), 0, views(old(extra)@)) matches Ok(model) && model
                == views(final(extra)@),
            Err(error) => label_items(views(items@), 0, views(old(extra)@)) matches Err(wrong)
                && wrong == error@,
        },
{
    let ghost models = views(items@);
    let ghost first = views(extra@);
    let mut at: usize = 0;
    while at < items.len()
        invariant
            at <= items@.len(),
            models == views(items@),
            first == views(old(extra)@),
            label_items(models, 0, first) == label_items(models, at as int, views(extra@)),
        decreases items@.len() - at,
    {
        assert(models[at as int] == items@[at as int]@);
        match &items[at].value {
            Value::String(text) => {
                let label = text.clone();
                proof {
                    views_push(extra@, label);
                }
                extra.push(label);
            }
            _ => {
                return Err(
                    invalid(
                        items[at].range,
                        "the reserved key `labels` holds a list of strings",
                    ),
                );
            }
        }
        at = at + 1;
    }
    Ok(())
}

fn add_part(parts: &mut RecordParts, property: &Property) -> (made: Result<(), ConversionError>)
    ensures
        match made {
            Ok(_) => part_added(old(parts).model(), property@) matches Ok(model) && model
                == final(parts).model(),
            Err(error) => part_added(old(parts).model(), property@) matches Err(wrong) && wrong
                == error@,
        },
{
    let key = property.key.value.as_str();
    if same(key, "id") {
        return match &property.value.value {
            Value::String(text) => {
                parts.id = Some(text.clone());
                Ok(())
            }
            _ => Err(
                invalid(property.value.range, "the reserved key `id` holds a quoted identifier"),
            ),
        };
    }
    if same(key, "labels") {
        return match &property.value.value {
            Value::List(items) => {
                proof {
                    list_model(items@);
                }
                add_labels(&mut parts.extra, items)
            }
            _ => Err(
                invalid(property.value.range, "the reserved key `labels` holds a list of strings"),
            ),
        };
    }
    match PropertyKey::new(key) {
        Err(error) => Err(
            invalid_because(
                property.key.range,
                key,
                " is not a property key: ",
                error.message().as_str(),
            ),
        ),
        Ok(name) => match property_value(&property.value) {
            Err(error) => Err(error),
            Ok(value) => {
                let pair = (name, value);
                proof {
                    pairs_push(parts.properties@, pair);
                }
                parts.properties.push(pair);
                Ok(())
            }
        },
    }
}

fn split_record(record: &RecordBody) -> (made: Result<RecordParts, ConversionError>)
    ensures
        match made {
            Ok(parts) => parts_of(record@) matches Ok(model) && model == parts.model(),
            Err(error) => parts_of(record@) matches Err(wrong) && wrong == error@,
        },
{
    let ghost models = record@.properties;
    let mut parts = RecordParts { id: None, extra: Vec::new(), properties: Vec::new() };
    proof {
        assert(parts.model().extra =~= no_parts().extra);
        assert(parts.model().properties =~= no_parts().properties);
    }
    let mut at: usize = 0;
    while at < record.properties.len()
        invariant
            at <= record.properties@.len(),
            models == record@.properties,
            parts_from(models, 0, no_parts()) == parts_from(models, at as int, parts.model()),
        decreases record.properties@.len() - at,
    {
        assert(models[at as int] == record.properties@[at as int]@);
        match add_part(&mut parts, &record.properties[at]) {
            Err(error) => {
                return Err(error);
            }
            Ok(_) => {}
        }
        at = at + 1;
    }
    Ok(parts)
}

// -- Labels ------------------------------------------------------------------------

/// A list with one more text, where it is not there yet.
pub open spec fn with_new(texts: Seq<Seq<char>>, text: Seq<char>) -> Seq<Seq<char>> {
    if texts.contains(text) {
        texts
    } else {
        texts.push(text)
    }
}

/// The labels the schema names from `at` on make, behind those before them.
pub open spec fn named_labels(
    named: Seq<Spanned<Seq<char>>>,
    at: int,
    before: Seq<Seq<char>>,
) -> Converted<Seq<Seq<char>>>
    decreases named.len() - at,
{
    if at < 0 || at >= named.len() {
        Ok(before)
    } else {
        match name_fault(named[at].value) {
            Some(wrong) => refused(
                named[at].range,
                named[at].value + " is not a label: "@ + wrong.spec_message(),
            ),
            None => named_labels(named, at + 1, with_new(before, named[at].value)),
        }
    }
}

/// The labels the extra labels from `at` on make, behind those before them.
pub open spec fn extra_labels(
    extra: Seq<Seq<char>>,
    at: int,
    range: SourceRange,
    before: Seq<Seq<char>>,
) -> Converted<Seq<Seq<char>>>
    decreases extra.len() - at,
{
    if at < 0 || at >= extra.len() {
        Ok(before)
    } else {
        match name_fault(extra[at]) {
            Some(wrong) => refused(
                range,
                extra[at] + " is not a label: "@ + wrong.spec_message(),
            ),
            None => extra_labels(extra, at + 1, range, with_new(before, extra[at])),
        }
    }
}

/// The labels of a record: its schema names and its extra labels, each once.
pub open spec fn labels_from(
    named: Seq<Spanned<Seq<char>>>,
    extra: Seq<Seq<char>>,
    range: SourceRange,
) -> Converted<Seq<Seq<char>>> {
    match named_labels(named, 0, Seq::empty()) {
        Err(wrong) => Err(wrong),
        Ok(found) => extra_labels(extra, 0, range, found),
    }
}

fn add_label(labels: &mut Vec<Label>, label: Label)
    ensures
        views(final(labels)@) == with_new(views(old(labels)@), label@),
{
    let ghost models = views(labels@);
    let mut at: usize = 0;
    while at < labels.len()
        invariant
            at <= labels@.len(),
            models == views(labels@),
            views(old(labels)@) == models,
            forall|i: int| 0 <= i < at ==> #[trigger] models[i] != label@,
        decreases labels@.len() - at,
    {
        assert(models[at as int] == labels@[at as int]@);
        if labels[at].same(&label) {
            assert(models.contains(label@));
            return;
        }
        at = at + 1;
    }
    assert(!models.contains(label@));
    proof {
        views_push(labels@, label);
    }
    labels.push(label);
}

fn labels_for(named: &Vec<Spanned<String>>, extra: &Vec<String>, range: SourceRange) -> (made:
    Result<Vec<Label>, ConversionError>)
    ensures
        match made {
            Ok(labels) => labels_from(views(named@), views(extra@), range) matches Ok(model)
                && model == views(labels@),
            Err(error) => labels_from(views(named@), views(extra@), range) matches Err(wrong)
                && wrong == error@,
        },
{
    let ghost models = views(named@);
    let mut labels: Vec<Label> = Vec::new();
    assert(views(labels@) =~= Seq::<Seq<char>>::empty());
    let mut at: usize = 0;
    while at < named.len()
        invariant
            at <= named@.len(),
            models == views(named@),
            named_labels(models, 0, Seq::empty()) == named_labels(
                models,
                at as int,
                views(labels@),
            ),
        decreases named@.len() - at,
    {
        assert(models[at as int] == named@[at as int]@);
        match Label::new(named[at].value.as_str()) {
            Err(error) => {
                return Err(
                    invalid_because(
                        named[at].range,
                        named[at].value.as_str(),
                        " is not a label: ",
                        error.message().as_str(),
                    ),
                );
            }
            Ok(label) => {
                add_label(&mut labels, label);
            }
        }
        at = at + 1;
    }
    let ghost found = views(labels@);
    let ghost others = views(extra@);
    let mut at: usize = 0;
    while at < extra.len()
        invariant
            at <= extra@.len(),
            models == views(named@),
            others == views(extra@),
            named_labels(models, 0, Seq::empty()) == Ok::<Seq<Seq<char>>, ConversionErrorModel>(
                found,
            ),
            extra_labels(others, 0, range, found) == extra_labels(
                others,
                at as int,
                range,
                views(labels@),
            ),
        decreases extra@.len() - at,
    {
        assert(others[at as int] == extra@[at as int]@);
        match Label::new(extra[at].as_str()) {
            Err(error) => {
                return Err(
                    invalid_because(
                        range,
                        extra[at].as_str(),
                        " is not a label: ",
                        error.message().as_str(),
                    ),
                );
            }
            Ok(label) => {
                add_label(&mut labels, label);
            }
        }
        at = at + 1;
    }
    Ok(labels)
}

// -- Evidence ----------------------------------------------------------------------

/// A text that must hold a character.
pub open spec fn nonempty(text: Seq<char>, range: SourceRange, what: Seq<char>) -> Converted<
    Seq<char>,
> {
    if text.len() > 0 {
        Ok(text)
    } else {
        refused(range, what + " must not be empty"@)
    }
}

fn nonempty_text(text: &str, range: SourceRange, what: &str) -> (made: Result<
    NonEmptyText,
    ConversionError,
>)
    ensures
        match made {
            Ok(found) => nonempty(text@, range, what@) matches Ok(model) && model == found@,
            Err(error) => nonempty(text@, range, what@) matches Err(wrong) && wrong == error@,
        },
{
    match NonEmptyText::new(text) {
        Ok(found) => Ok(found),
        Err(_) => {
            let reason = joined(what, " must not be empty");
            Err(invalid(range, reason.as_str()))
        }
    }
}

/// The owner a declaration stands for.
pub open spec fn owner_from(owner: OwnerDeclarationModel) -> Converted<OwnerModel> {
    match owner {
        OwnerDeclarationModel::Analyzer { name, version } => match nonempty(
            name.value,
            name.range,
            "an analyzer name"@,
        ) {
            Err(wrong) => Err(wrong),
            Ok(_) => match nonempty(version.value, version.range, "an analyzer version"@) {
                Err(wrong) => Err(wrong),
                Ok(_) => Ok(OwnerModel::Analyzer { name: name.value, version: version.value }),
            },
        },
        OwnerDeclarationModel::Ai { contract_digest } => if valid_digest(contract_digest.value) {
            Ok(OwnerModel::AiAnalysis { contract_digest: contract_digest.value })
        } else {
            refused(
                contract_digest.range,
                "a contract digest: "@ + DigestError::Malformed.spec_message(),
            )
        },
        OwnerDeclarationModel::User { .. } => Ok(OwnerModel::User),
        OwnerDeclarationModel::Named { name } => match nonempty(
            name.value,
            name.range,
            "an owner"@,
        ) {
            Err(wrong) => Err(wrong),
            Ok(_) => Ok(OwnerModel::Named { name: name.value }),
        },
    }
}

fn owner(declaration: &OwnerDeclaration) -> (made: Result<Owner, ConversionError>)
    ensures
        match made {
            Ok(found) => owner_from(declaration@) matches Ok(model) && model == found@,
            Err(error) => owner_from(declaration@) matches Err(wrong) && wrong == error@,
        },
{
    match declaration {
        OwnerDeclaration::Analyzer { name, version } => {
            let who = match nonempty_text(name.value.as_str(), name.range, "an analyzer name") {
                Err(error) => return Err(error),
                Ok(found) => found,
            };
            let which = match nonempty_text(
                version.value.as_str(),
                version.range,
                "an analyzer version",
            ) {
                Err(error) => return Err(error),
                Ok(found) => found,
            };
            Ok(Owner::Analyzer { name: who, version: which })
        }
        OwnerDeclaration::Ai { contract_digest } => match ContentDigest::new(
            contract_digest.value.as_str(),
        ) {
            Ok(digest) => Ok(Owner::AiAnalysis { contract_digest: digest }),
            Err(error) => {
                let reason = joined("a contract digest: ", error.message().as_str());
                Err(invalid(contract_digest.range, reason.as_str()))
            }
        },
        OwnerDeclaration::User { .. } => Ok(Owner::User),
        OwnerDeclaration::Named { name } => match nonempty_text(
            name.value.as_str(),
            name.range,
            "an owner",
        ) {
            Err(error) => Err(error),
            Ok(found) => Ok(Owner::Named { name: found }),
        },
    }
}

/// The first place of a character, from `at` on.
pub open spec fn find_char(text: Seq<char>, wanted: char, at: int) -> Option<int>
    decreases text.len() - at,
{
    if at < 0 || at >= text.len() {
        None
    } else if text[at] == wanted {
        Some(at)
    } else {
        find_char(text, wanted, at + 1)
    }
}

/// The position written `line:column:offset`.
pub open spec fn position_from(text: Seq<char>) -> Option<SourcePosition> {
    match find_char(text, ':', 0) {
        None => None,
        Some(first) => match find_char(text, ':', first + 1) {
            None => None,
            Some(second) => if find_char(text, ':', second + 1) is Some {
                None
            } else {
                match (
                    read_unsigned(text.subrange(0, first), u32::MAX as int),
                    read_unsigned(text.subrange(first + 1, second), u32::MAX as int),
                    read_unsigned(
                        text.subrange(second + 1, text.len() as int),
                        u64::MAX as int,
                    ),
                ) {
                    (Some(line), Some(column), Some(offset)) => Some(
                        SourcePosition {
                            line: line as u32,
                            column: column as u32,
                            offset: offset as u64,
                        },
                    ),
                    _ => None,
                }
            },
        },
    }
}

/// The range written `line:column:offset-line:column:offset`.
pub open spec fn range_from(text: Seq<char>, at: SourceRange) -> Converted<SourceRange> {
    match find_char(text, '-', 0) {
        None => refused(
            at,
            "a range is written line:column:offset-line:column:offset, found "@ + text,
        ),
        Some(mark) => {
            let first = text.subrange(0, mark);
            let second = text.subrange(mark + 1, text.len() as int);
            match position_from(first) {
                None => refused(at, first + " is not a line:column:offset position"@),
                Some(start) => match position_from(second) {
                    None => refused(at, second + " is not a line:column:offset position"@),
                    Some(end) => match range_fault(start, end) {
                        Some(wrong) => refused(at, text + ": "@ + wrong.spec_message()),
                        None => Ok(SourceRange::made(start, end)),
                    },
                },
            }
        },
    }
}

fn find(characters: &Vec<char>, wanted: char, from: usize) -> (found: Option<usize>)
    requires
        from <= characters@.len(),
    ensures
        match found {
            Some(at) => from <= at < characters.len() && find_char(
                characters@,
                wanted,
                from as int,
            ) == Some(at as int),
            None => find_char(characters@, wanted, from as int) is None,
        },
{
    let mut at: usize = from;
    while at < characters.len()
        invariant
            from <= at <= characters@.len(),
            find_char(characters@, wanted, from as int) == find_char(
                characters@,
                wanted,
                at as int,
            ),
        decreases characters@.len() - at,
    {
        if characters[at] == wanted {
            return Some(at);
        }
        at = at + 1;
    }
    None
}

fn parse_position(text: &str) -> (found: Option<SourcePosition>)
    ensures
        found == position_from(text@),
{
    let all = characters(text);
    let first = match find(&all, ':', 0) {
        None => return None,
        Some(at) => at,
    };
    let second = match find(&all, ':', first + 1) {
        None => return None,
        Some(at) => at,
    };
    if find(&all, ':', second + 1).is_some() {
        return None;
    }
    let line = parse_unsigned(string_of(&all, 0, first).as_str(), u32::MAX as u64);
    let column = parse_unsigned(string_of(&all, first + 1, second).as_str(), u32::MAX as u64);
    let offset = parse_unsigned(string_of(&all, second + 1, all.len()).as_str(), u64::MAX);
    match (line, column, offset) {
        (Some(line), Some(column), Some(offset)) => Some(
            SourcePosition { line: line as u32, column: column as u32, offset },
        ),
        _ => None,
    }
}

fn parse_range(text: &str, at: SourceRange) -> (made: Result<SourceRange, ConversionError>)
    ensures
        match made {
            Ok(found) => range_from(text@, at) matches Ok(model) && model == found,
            Err(error) => range_from(text@, at) matches Err(wrong) && wrong == error@,
        },
{
    let all = characters(text);
    let mark = match find(&all, '-', 0) {
        None => {
            let reason = joined(
                "a range is written line:column:offset-line:column:offset, found ",
                text,
            );
            return Err(invalid(at, reason.as_str()));
        }
        Some(place) => place,
    };
    let first = string_of(&all, 0, mark);
    let second = string_of(&all, mark + 1, all.len());
    let start = match parse_position(first.as_str()) {
        None => {
            let reason = joined(first.as_str(), " is not a line:column:offset position");
            return Err(invalid(at, reason.as_str()));
        }
        Some(position) => position,
    };
    let end = match parse_position(second.as_str()) {
        None => {
            let reason = joined(second.as_str(), " is not a line:column:offset position");
            return Err(invalid(at, reason.as_str()));
        }
        Some(position) => position,
    };
    match SourceRange::new(start, end) {
        Ok(range) => Ok(range),
        Err(error) => Err(invalid_because(at, text, ": ", error.message().as_str())),
    }
}

/// The first field with a key, from `at` on.
pub open spec fn find_field(fields: Seq<EvidenceFieldModel>, key: Seq<char>, at: int) -> Option<int>
    decreases fields.len() - at,
{
    if at < 0 || at >= fields.len() {
        None
    } else if fields[at].key.value == key {
        Some(at)
    } else {
        find_field(fields, key, at + 1)
    }
}

/// The quoted string the first field with a key holds.
pub open spec fn text_of_key(fields: Seq<EvidenceFieldModel>, key: Seq<char>) -> Option<
    (Seq<char>, SourceRange),
> {
    match find_field(fields, key, 0) {
        None => None,
        Some(at) => match fields[at].value.value {
            EvidenceValueModel::Text(text) => Some((text, fields[at].value.range)),
            EvidenceValueModel::Enumerator { .. } => None,
        },
    }
}

/// The bare word the first field with a key holds.
pub open spec fn word_of_key(fields: Seq<EvidenceFieldModel>, key: Seq<char>) -> Option<
    (Seq<char>, Option<Seq<char>>, SourceRange),
> {
    match find_field(fields, key, 0) {
        None => None,
        Some(at) => match fields[at].value.value {
            EvidenceValueModel::Enumerator { name, score } => Some(
                (name, score, fields[at].value.range),
            ),
            EvidenceValueModel::Text(_) => None,
        },
    }
}

fn field_index(fields: &Vec<EvidenceField>, key: &str) -> (found: Option<usize>)
    ensures
        match found {
            Some(at) => at < fields@.len() && find_field(views(fields@), key@, 0) == Some(at as int),
            None => find_field(views(fields@), key@, 0) is None,
        },
{
    let ghost models = views(fields@);
    let mut at: usize = 0;
    while at < fields.len()
        invariant
            at <= fields@.len(),
            models == views(fields@),
            find_field(models, key@, 0) == find_field(models, key@, at as int),
        decreases fields@.len() - at,
    {
        assert(models[at as int] == fields@[at as int]@);
        if same(fields[at].key.value.as_str(), key) {
            return Some(at);
        }
        at = at + 1;
    }
    None
}

fn evidence_text<'a>(fields: &'a Vec<EvidenceField>, key: &str) -> (found: Option<
    (&'a str, SourceRange),
>)
    ensures
        match found {
            Some((text, range)) => text_of_key(views(fields@), key@) == Some((text@, range)),
            None => text_of_key(views(fields@), key@) is None,
        },
{
    match field_index(fields, key) {
        None => None,
        Some(at) => {
            assert(views(fields@)[at as int] == fields@[at as int]@);
            match &fields[at].value.value {
                EvidenceValue::Text(text) => Some((text.as_str(), fields[at].value.range)),
                EvidenceValue::Enumerator { .. } => None,
            }
        }
    }
}

fn evidence_word<'a>(fields: &'a Vec<EvidenceField>, key: &str) -> (found: Option<
    (&'a str, &'a Option<String>, SourceRange),
>)
    ensures
        match found {
            Some((name, score, range)) => word_of_key(views(fields@), key@) == Some(
                (name@, view_of(*score), range),
            ),
            None => word_of_key(views(fields@), key@) is None,
        },
{
    match field_index(fields, key) {
        None => None,
        Some(at) => {
            assert(views(fields@)[at as int] == fields@[at as int]@);
            match &fields[at].value.value {
                EvidenceValue::Enumerator { name, score } => Some(
                    (name.as_str(), score, fields[at].value.range),
                ),
                EvidenceValue::Text(_) => None,
            }
        }
    }
}

/// What is said of a key an evidence block must state.
pub open spec fn must_state(key: Seq<char>) -> Seq<char> {
    "an evidence block must state `"@ + key + "`"@
}

/// The source an evidence block states.
pub open spec fn source_of(block: EvidenceBlockModel) -> Converted<Seq<char>> {
    match text_of_key(block.fields, "source"@) {
        None => refused(block.range, must_state("source"@)),
        Some((text, range)) => match locator_fault(text) {
            Some(wrong) => refused(range, text + ": "@ + wrong.spec_message()),
            None => Ok(text),
        },
    }
}

/// The digest an evidence block states.
pub open spec fn digest_of(block: EvidenceBlockModel) -> Converted<Seq<char>> {
    match text_of_key(block.fields, "digest"@) {
        None => refused(block.range, must_state("digest"@)),
        Some((text, range)) => if valid_digest(text) {
            Ok(text)
        } else {
            refused(range, text + ": "@ + DigestError::Malformed.spec_message())
        },
    }
}

/// The text an evidence block may state.
pub open spec fn optional_of(block: EvidenceBlockModel, key: Seq<char>) -> Converted<
    Option<Seq<char>>,
> {
    match text_of_key(block.fields, key) {
        None => Ok(None),
        Some((text, range)) => match nonempty(text, range, "`"@ + key + "`"@) {
            Err(wrong) => Err(wrong),
            Ok(_) => Ok(Some(text)),
        },
    }
}

/// The range an evidence block may state.
pub open spec fn optional_range(block: EvidenceBlockModel) -> Converted<Option<SourceRange>> {
    match text_of_key(block.fields, "range"@) {
        None => Ok(None),
        Some((text, at)) => match range_from(text, at) {
            Err(wrong) => Err(wrong),
            Ok(range) => Ok(Some(range)),
        },
    }
}

/// The producer and its version: as stated, or as the owner supplies them.
pub open spec fn producer_of(
    block: EvidenceBlockModel,
    inherited: Option<(Seq<char>, Seq<char>)>,
) -> Converted<(Seq<char>, Seq<char>)> {
    let name = text_of_key(block.fields, "producer"@);
    let version = text_of_key(block.fields, "producer_version"@);
    match (name, version, inherited) {
        (Some((who, _)), Some((which, _)), _) => Ok((who, which)),
        (Some((who, _)), None, Some((_, which))) => Ok((who, which)),
        (None, Some((which, _)), Some((who, _))) => Ok((who, which)),
        (None, None, Some((who, which))) => Ok((who, which)),
        _ => refused(
            block.range,
            "an evidence block must state `producer` and `producer_version` unless its owner is an analyzer to inherit them from"@,
        ),
    }
}

/// The method a word stands for.
pub open spec fn method_named(word: Seq<char>) -> Option<EvidenceMethod> {
    if word == "deterministic"@ {
        Some(EvidenceMethod::Deterministic)
    } else if word == "ai_inferred"@ {
        Some(EvidenceMethod::AiInferred)
    } else if word == "user_declared"@ {
        Some(EvidenceMethod::UserDeclared)
    } else {
        None
    }
}

/// The method an evidence block states.
pub open spec fn method_of(block: EvidenceBlockModel) -> Converted<EvidenceMethod> {
    match word_of_key(block.fields, "method"@) {
        None => refused(block.range, must_state("method"@)),
        Some((word, score, range)) => if score is Some {
            refused(range, "a method carries no score"@)
        } else {
            match method_named(word) {
                Some(method) => Ok(method),
                None => refused(range, "`"@ + word + "` is not a method"@),
            }
        },
    }
}

/// The bits of a signed 32-bit number.
pub open spec fn score_bits(minus: bool, pattern: u64) -> u32 {
    if minus {
        (pattern + 0x8000_0000) as u32
    } else {
        pattern as u32
    }
}

/// The score a confidence carries.
pub open spec fn score_from(word: Seq<char>, score: Option<Seq<char>>, range: SourceRange) -> Converted<
    Score,
> {
    match score {
        None => refused(range, "`"@ + word + "` requires a score"@),
        Some(text) => match read_number(text, Format::single()) {
            None => refused(range, text + " is not a confidence score"@),
            Some((minus, pattern)) => if valid_score(score_bits(minus, pattern)) {
                Ok(Score::of_bits(score_bits(minus, pattern)))
            } else {
                refused(range, text + ": "@ + ScoreError::OutOfRange.spec_message())
            },
        },
    }
}

/// The confidence an evidence block states.
pub open spec fn confidence_of(block: EvidenceBlockModel) -> Converted<Confidence> {
    match word_of_key(block.fields, "confidence"@) {
        None => refused(block.range, must_state("confidence"@)),
        Some((word, score, range)) => if word == "extracted"@ {
            if score is Some {
                refused(range, "`extracted` carries no score"@)
            } else {
                Ok(Confidence::Extracted)
            }
        } else if word == "inferred"@ {
            match score_from(word, score, range) {
                Err(wrong) => Err(wrong),
                Ok(number) => Ok(Confidence::Inferred { score: number }),
            }
        } else if word == "ambiguous"@ {
            match score_from(word, score, range) {
                Err(wrong) => Err(wrong),
                Ok(number) => Ok(Confidence::Ambiguous { score: number }),
            }
        } else {
            refused(range, "`"@ + word + "` is not a confidence"@)
        },
    }
}

/// The evidence a block stands for.
pub open spec fn evidence_from(
    block: EvidenceBlockModel,
    inherited: Option<(Seq<char>, Seq<char>)>,
) -> Converted<EvidenceModel> {
    match source_of(block) {
        Err(wrong) => Err(wrong),
        Ok(source) => match digest_of(block) {
            Err(wrong) => Err(wrong),
            Ok(content_digest) => match optional_of(block, "revision"@) {
                Err(wrong) => Err(wrong),
                Ok(resolved_revision) => match optional_of(block, "path"@) {
                    Err(wrong) => Err(wrong),
                    Ok(path) => match optional_range(block) {
                        Err(wrong) => Err(wrong),
                        Ok(range) => match producer_of(block, inherited) {
                            Err(wrong) => Err(wrong),
                            Ok((producer, producer_version)) => match method_of(block) {
                                Err(wrong) => Err(wrong),
                                Ok(method) => match confidence_of(block) {
                                    Err(wrong) => Err(wrong),
                                    Ok(confidence) => match nonempty(
                                        producer,
                                        block.range,
                                        "a producer"@,
                                    ) {
                                        Err(wrong) => Err(wrong),
                                        Ok(_) => match nonempty(
                                            producer_version,
                                            block.range,
                                            "a producer version"@,
                                        ) {
                                            Err(wrong) => Err(wrong),
                                            Ok(_) => Ok(
                                                EvidenceModel {
                                                    source,
                                                    resolved_revision,
                                                    path,
                                                    content_digest,
                                                    range,
                                                    producer,
                                                    producer_version,
                                                    method,
                                                    confidence,
                                                },
                                            ),
                                        },
                                    },
                                },
                            },
                        },
                    },
                },
            },
        },
    }
}

fn stated_source(block: &EvidenceBlock) -> (made: Result<CanonicalSourceLocator, ConversionError>)
    ensures
        match made {
            Ok(found) => source_of(block@) matches Ok(model) && model == found@,
            Err(error) => source_of(block@) matches Err(wrong) && wrong == error@,
        },
{
    match evidence_text(&block.fields, "source") {
        None => Err(invalid_because(block.range, "an evidence block must state `", "source", "`")),
        Some((text, range)) => match CanonicalSourceLocator::new(text) {
            Ok(locator) => Ok(locator),
            Err(error) => Err(invalid_because(range, text, ": ", error.message().as_str())),
        },
    }
}

fn stated_digest(block: &EvidenceBlock) -> (made: Result<ContentDigest, ConversionError>)
    ensures
        match made {
            Ok(found) => digest_of(block@) matches Ok(model) && model == found@,
            Err(error) => digest_of(block@) matches Err(wrong) && wrong == error@,
        },
{
    match evidence_text(&block.fields, "digest") {
        None => Err(invalid_because(block.range, "an evidence block must state `", "digest", "`")),
        Some((text, range)) => match ContentDigest::new(text) {
            Ok(digest) => Ok(digest),
            Err(error) => Err(invalid_because(range, text, ": ", error.message().as_str())),
        },
    }
}

fn stated_text(block: &EvidenceBlock, key: &str) -> (made: Result<
    Option<NonEmptyText>,
    ConversionError,
>)
    ensures
        match made {
            Ok(found) => optional_of(block@, key@) matches Ok(model) && model == view_of(found),
            Err(error) => optional_of(block@, key@) matches Err(wrong) && wrong == error@,
        },
{
    match evidence_text(&block.fields, key) {
        None => Ok(None),
        Some((text, range)) => {
            let mut what = joined("`", key);
            what.append("`");
            match nonempty_text(text, range, what.as_str()) {
                Err(error) => Err(error),
                Ok(found) => Ok(Some(found)),
            }
        }
    }
}

fn stated_range(block: &EvidenceBlock) -> (made: Result<Option<SourceRange>, ConversionError>)
    ensures
        match made {
            Ok(found) => optional_range(block@) matches Ok(model) && model == found,
            Err(error) => optional_range(block@) matches Err(wrong) && wrong == error@,
        },
{
    match evidence_text(&block.fields, "range") {
        None => Ok(None),
        Some((text, at)) => match parse_range(text, at) {
            Err(error) => Err(error),
            Ok(range) => Ok(Some(range)),
        },
    }
}

/// The model of borrowed producer texts.
pub open spec fn inherited_model(inherited: Option<(&str, &str)>) -> Option<(Seq<char>, Seq<char>)> {
    match inherited {
        Some((name, version)) => Some((name@, version@)),
        None => None,
    }
}

fn stated_producer<'a>(block: &'a EvidenceBlock, inherited: Option<(&'a str, &'a str)>) -> (made:
    Result<(&'a str, &'a str), ConversionError>)
    ensures
        match made {
            Ok(found) => producer_of(block@, inherited_model(inherited)) matches Ok(model) && model
                == (found.0@, found.1@),
            Err(error) => producer_of(block@, inherited_model(inherited)) matches Err(wrong)
                && wrong == error@,
        },
{
    let name = evidence_text(&block.fields, "producer");
    let version = evidence_text(&block.fields, "producer_version");
    match (name, version, inherited) {
        (Some((who, _)), Some((which, _)), _) => Ok((who, which)),
        (Some((who, _)), None, Some((_, which))) => Ok((who, which)),
        (None, Some((which, _)), Some((who, _))) => Ok((who, which)),
        (None, None, Some((who, which))) => Ok((who, which)),
        _ => Err(
            invalid(
                block.range,
                "an evidence block must state `producer` and `producer_version` unless its owner is an analyzer to inherit them from",
            ),
        ),
    }
}

fn stated_method(block: &EvidenceBlock) -> (made: Result<EvidenceMethod, ConversionError>)
    ensures
        match made {
            Ok(found) => method_of(block@) matches Ok(model) && model == found,
            Err(error) => method_of(block@) matches Err(wrong) && wrong == error@,
        },
{
    match evidence_word(&block.fields, "method") {
        None => Err(invalid_because(block.range, "an evidence block must state `", "method", "`")),
        Some((word, score, range)) => {
            if score.is_some() {
                return Err(invalid(range, "a method carries no score"));
            }
            if same(word, "deterministic") {
                Ok(EvidenceMethod::Deterministic)
            } else if same(word, "ai_inferred") {
                Ok(EvidenceMethod::AiInferred)
            } else if same(word, "user_declared") {
                Ok(EvidenceMethod::UserDeclared)
            } else {
                Err(invalid_because(range, "`", word, "` is not a method"))
            }
        }
    }
}

fn stated_score(word: &str, score: &Option<String>, range: SourceRange) -> (made: Result<
    Score,
    ConversionError,
>)
    ensures
        match made {
            Ok(found) => score_from(word@, view_of(*score), range) matches Ok(model) && model
                == found,
            Err(error) => score_from(word@, view_of(*score), range) matches Err(wrong) && wrong
                == error@,
        },
{
    match score {
        None => Err(invalid_because(range, "`", word, "` requires a score")),
        Some(text) => match parse_float(text.as_str(), single_format()) {
            None => {
                let reason = joined(text.as_str(), " is not a confidence score");
                Err(invalid(range, reason.as_str()))
            }
            Some((minus, pattern)) => {
                proof {
                    pattern_bound(text@, Format::single());
                }
                let bits: u32 = if minus {
                    (pattern + 0x8000_0000) as u32
                } else {
                    pattern as u32
                };
                match Score::new(bits) {
                    Ok(number) => Ok(number),
                    Err(error) => Err(
                        invalid_because(range, text.as_str(), ": ", error.message().as_str()),
                    ),
                }
            }
        },
    }
}

fn stated_confidence(block: &EvidenceBlock) -> (made: Result<Confidence, ConversionError>)
    ensures
        match made {
            Ok(found) => confidence_of(block@) matches Ok(model) && model == found,
            Err(error) => confidence_of(block@) matches Err(wrong) && wrong == error@,
        },
{
    match evidence_word(&block.fields, "confidence") {
        None => Err(
            invalid_because(block.range, "an evidence block must state `", "confidence", "`"),
        ),
        Some((word, score, range)) => {
            if same(word, "extracted") {
                if score.is_some() {
                    Err(invalid(range, "`extracted` carries no score"))
                } else {
                    Ok(Confidence::Extracted)
                }
            } else if same(word, "inferred") {
                match stated_score(word, score, range) {
                    Err(error) => Err(error),
                    Ok(number) => Ok(Confidence::Inferred { score: number }),
                }
            } else if same(word, "ambiguous") {
                match stated_score(word, score, range) {
                    Err(error) => Err(error),
                    Ok(number) => Ok(Confidence::Ambiguous { score: number }),
                }
            } else {
                Err(invalid_because(range, "`", word, "` is not a confidence"))
            }
        }
    }
}

fn evidence(block: &EvidenceBlock, inherited: Option<(&str, &str)>) -> (made: Result<
    Evidence,
    ConversionError,
>)
    ensures
        match made {
            Ok(found) => evidence_from(block@, inherited_model(inherited)) matches Ok(model)
                && model == found@,
            Err(error) => evidence_from(block@, inherited_model(inherited)) matches Err(wrong)
                && wrong == error@,
        },
{
    let source = match stated_source(block) {
        Err(error) => return Err(error),
        Ok(found) => found,
    };
    let content_digest = match stated_digest(block) {
        Err(error) => return Err(error),
        Ok(found) => found,
    };
    let resolved_revision = match stated_text(block, "revision") {
        Err(error) => return Err(error),
        Ok(found) => found,
    };
    let path = match stated_text(block, "path") {
        Err(error) => return Err(error),
        Ok(found) => found,
    };
    let range = match stated_range(block) {
        Err(error) => return Err(error),
        Ok(found) => found,
    };
    let (who, which) = match stated_producer(block, inherited) {
        Err(error) => return Err(error),
        Ok(found) => found,
    };
    let method = match stated_method(block) {
        Err(error) => return Err(error),
        Ok(found) => found,
    };
    let confidence = match stated_confidence(block) {
        Err(error) => return Err(error),
        Ok(found) => found,
    };
    let producer = match nonempty_text(who, block.range, "a producer") {
        Err(error) => return Err(error),
        Ok(found) => found,
    };
    let producer_version = match nonempty_text(which, block.range, "a producer version") {
        Err(error) => return Err(error),
        Ok(found) => found,
    };
    Ok(
        Evidence {
            source,
            resolved_revision,
            path,
            content_digest,
            range,
            producer,
            producer_version,
            method,
            confidence,
        },
    )
}

/// The evidence the blocks from `at` on stand for, behind that before them.
pub open spec fn evidence_list(
    blocks: Seq<EvidenceBlockModel>,
    inherited: Option<(Seq<char>, Seq<char>)>,
    at: int,
    before: Seq<EvidenceModel>,
) -> Converted<Seq<EvidenceModel>>
    decreases blocks.len() - at,
{
    if at < 0 || at >= blocks.len() {
        Ok(before)
    } else {
        match evidence_from(blocks[at], inherited) {
            Err(wrong) => Err(wrong),
            Ok(found) => evidence_list(blocks, inherited, at + 1, before.push(found)),
        }
    }
}

/// What an owner supplies to its evidence.
pub open spec fn supplied(owner: OwnerDeclarationModel) -> Option<(Seq<char>, Seq<char>)> {
    match owner {
        OwnerDeclarationModel::Analyzer { name, version } => Some((name.value, version.value)),
        _ => None,
    }
}

/// The source unit a contribution states, which is the query unit where it states none.
pub open spec fn unit_from(unit: Option<Spanned<Seq<char>>>) -> Converted<SourceUnitId> {
    match unit {
        None => Ok(SourceUnitId::with_bytes(Seq::new(16, |i: int| 0u8))),
        Some(text) => match unit_fault(text.value) {
            None => Ok(SourceUnitId::with_text(text.value)),
            Some(wrong) => refused(text.range, text.value + ": "@ + wrong),
        },
    }
}

/// The contribution a block stands for.
pub open spec fn contribution_from(block: ContributionBlockModel) -> Converted<ContributionModel> {
    match owner_from(block.owner) {
        Err(wrong) => Err(wrong),
        Ok(owner) => match unit_from(block.unit) {
            Err(wrong) => Err(wrong),
            Ok(source_unit) => match evidence_list(
                block.evidence,
                supplied(block.owner),
                0,
                Seq::empty(),
            ) {
                Err(wrong) => Err(wrong),
                Ok(evidence) => Ok(ContributionModel { owner, source_unit, evidence }),
            },
        },
    }
}

/// The contributions the blocks from `at` on stand for, behind those before them.
pub open spec fn contributions_from(
    blocks: Seq<ContributionBlockModel>,
    at: int,
    before: Seq<ContributionModel>,
) -> Converted<Seq<ContributionModel>>
    decreases blocks.len() - at,
{
    if at < 0 || at >= blocks.len() {
        Ok(before)
    } else {
        match contribution_from(blocks[at]) {
            Err(wrong) => Err(wrong),
            Ok(found) => contributions_from(blocks, at + 1, before.push(found)),
        }
    }
}

fn source_unit(unit: &Option<Spanned<String>>) -> (made: Result<SourceUnitId, ConversionError>)
    ensures
        match made {
            Ok(found) => unit_from(view_of(*unit)) matches Ok(model) && model == found,
            Err(error) => unit_from(view_of(*unit)) matches Err(wrong) && wrong == error@,
        },
{
    match unit {
        None => {
            let found = SourceUnitId::query();
            proof {
                found.is_found();
            }
            Ok(found)
        }
        Some(text) => match SourceUnitId::from_str(text.value.as_str()) {
            Ok(found) => {
                proof {
                    found.is_found();
                }
                Ok(found)
            }
            Err(error) => Err(
                invalid_because(text.range, text.value.as_str(), ": ", error.message().as_str()),
            ),
        },
    }
}

fn contribution(block: &ContributionBlock) -> (made: Result<Contribution, ConversionError>)
    ensures
        match made {
            Ok(found) => contribution_from(block@) matches Ok(model) && model == found@,
            Err(error) => contribution_from(block@) matches Err(wrong) && wrong == error@,
        },
{
    let owner = match owner(&block.owner) {
        Err(error) => return Err(error),
        Ok(found) => found,
    };
    let source_unit = match source_unit(&block.unit) {
        Err(error) => return Err(error),
        Ok(found) => found,
    };
    let inherited = match &block.owner {
        OwnerDeclaration::Analyzer { name, version } => Some(
            (name.value.as_str(), version.value.as_str()),
        ),
        _ => None,
    };
    let ghost given = supplied(block@.owner);
    assert(inherited_model(inherited) == given);
    let ghost models = block@.evidence;
    let mut collected: Vec<Evidence> = Vec::new();
    assert(views(collected@) =~= Seq::<EvidenceModel>::empty());
    let mut at: usize = 0;
    while at < block.evidence.len()
        invariant
            at <= block.evidence@.len(),
            models == block@.evidence,
            inherited_model(inherited) == given,
            given == supplied(block@.owner),
            owner_from(block@.owner) matches Ok(model) && model == owner@,
            unit_from(block@.unit) matches Ok(model) && model == source_unit,
            evidence_list(models, given, 0, Seq::empty()) == evidence_list(
                models,
                given,
                at as int,
                views(collected@),
            ),
        decreases block.evidence@.len() - at,
    {
        assert(models[at as int] == block.evidence@[at as int]@);
        match evidence(&block.evidence[at], inherited) {
            Err(error) => {
                return Err(error);
            }
            Ok(found) => {
                proof {
                    views_push(collected@, found);
                }
                collected.push(found);
            }
        }
        at = at + 1;
    }
    Ok(Contribution { owner, source_unit, evidence: collected })
}

fn contributions(blocks: &Vec<ContributionBlock>) -> (made: Result<
    Vec<Contribution>,
    ConversionError,
>)
    ensures
        match made {
            Ok(found) => contributions_from(views(blocks@), 0, Seq::empty()) matches Ok(model)
                && model == views(found@),
            Err(error) => contributions_from(views(blocks@), 0, Seq::empty()) matches Err(wrong)
                && wrong == error@,
        },
{
    let ghost models = views(blocks@);
    let mut collected: Vec<Contribution> = Vec::new();
    assert(views(collected@) =~= Seq::<ContributionModel>::empty());
    let mut at: usize = 0;
    while at < blocks.len()
        invariant
            at <= blocks@.len(),
            models == views(blocks@),
            contributions_from(models, 0, Seq::empty()) == contributions_from(
                models,
                at as int,
                views(collected@),
            ),
        decreases blocks@.len() - at,
    {
        assert(models[at as int] == blocks@[at as int]@);
        match contribution(&blocks[at]) {
            Err(error) => {
                return Err(error);
            }
            Ok(found) => {
                proof {
                    views_push(collected@, found);
                }
                collected.push(found);
            }
        }
        at = at + 1;
    }
    Ok(collected)
}

// -- Links and schemas -------------------------------------------------------------

/// The link a declaration stands for.
pub open spec fn link_from(link: LinkDeclarationModel) -> Converted<LinkModel> {
    match locator_fault(link.source.value) {
        Some(wrong) => refused(
            link.source.range,
            link.source.value + ": "@ + wrong.spec_message(),
        ),
        None => match link.alias {
            None => Ok(LinkModel { source: link.source.value, alias: None }),
            Some(alias) => match name_fault(alias.value) {
                Some(wrong) => refused(alias.range, alias.value + ": "@ + wrong.spec_message()),
                None => Ok(LinkModel { source: link.source.value, alias: Some(alias.value) }),
            },
        },
    }
}

/// The links the declarations from `at` on stand for, behind those before them.
pub open spec fn links_from(
    links: Seq<LinkDeclarationModel>,
    at: int,
    before: Seq<LinkModel>,
) -> Converted<Seq<LinkModel>>
    decreases links.len() - at,
{
    if at < 0 || at >= links.len() {
        Ok(before)
    } else {
        match link_from(links[at]) {
            Err(wrong) => Err(wrong),
            Ok(found) => links_from(links, at + 1, before.push(found)),
        }
    }
}

/// The endpoint constraint a declaration stands for.
pub open spec fn constraint_from(constraint: Option<super::EndpointConstraintModel>) -> Converted<
    Option<EndpointConstraintModel>,
> {
    match constraint {
        None => Ok(None),
        Some(names) => match name_fault(names.source.value) {
            Some(wrong) => refused(names.source.range, wrong.spec_message()),
            None => match name_fault(names.target.value) {
                Some(wrong) => refused(names.target.range, wrong.spec_message()),
                None => Ok(
                    Some(
                        EndpointConstraintModel {
                            source: names.source.value,
                            target: names.target.value,
                        },
                    ),
                ),
            },
        },
    }
}

/// The fields the declarations from `at` on stand for, behind those before them.
pub open spec fn fields_from(
    fields: Seq<super::SchemaFieldModel>,
    at: int,
    before: Seq<SchemaFieldModel>,
) -> Converted<Seq<SchemaFieldModel>>
    decreases fields.len() - at,
{
    if at < 0 || at >= fields.len() {
        Ok(before)
    } else {
        match name_fault(fields[at].key.value) {
            Some(wrong) => refused(
                fields[at].key.range,
                fields[at].key.value + " is not a field key: "@ + wrong.spec_message(),
            ),
            None => fields_from(
                fields,
                at + 1,
                before.push(
                    SchemaFieldModel {
                        key: fields[at].key.value,
                        field_type: fields[at].field_type.value,
                        required: !fields[at].optional,
                    },
                ),
            ),
        }
    }
}

/// The schema a declaration stands for, with its fields in order.
pub open spec fn schema_from(schema: SchemaDeclarationModel) -> Converted<SchemaModel> {
    match name_fault(schema.name.value) {
        Some(wrong) => refused(
            schema.name.range,
            schema.name.value + " is not a schema name: "@ + wrong.spec_message(),
        ),
        None => match constraint_from(schema.endpoints) {
            Err(wrong) => Err(wrong),
            Ok(endpoints) => match fields_from(schema.fields, 0, Seq::empty()) {
                Err(wrong) => Err(wrong),
                Ok(fields) => Ok(
                    SchemaModel {
                        name: schema.name.value,
                        endpoints,
                        fields: sorted::<SchemaField>(fields),
                    },
                ),
            },
        },
    }
}

/// The schemas the declarations from `at` on stand for, behind those before them.
pub open spec fn schemas_from(
    schemas: Seq<SchemaDeclarationModel>,
    at: int,
    before: Seq<SchemaModel>,
) -> Converted<Seq<SchemaModel>>
    decreases schemas.len() - at,
{
    if at < 0 || at >= schemas.len() {
        Ok(before)
    } else {
        match schema_from(schemas[at]) {
            Err(wrong) => Err(wrong),
            Ok(found) => schemas_from(schemas, at + 1, before.push(found)),
        }
    }
}

fn link(declaration: &LinkDeclaration) -> (made: Result<Link, ConversionError>)
    ensures
        match made {
            Ok(found) => link_from(declaration@) matches Ok(model) && model == found@,
            Err(error) => link_from(declaration@) matches Err(wrong) && wrong == error@,
        },
{
    let place = &declaration.source;
    let source = match CanonicalSourceLocator::new(place.value.as_str()) {
        Ok(locator) => locator,
        Err(error) => {
            return Err(
                invalid_because(place.range, place.value.as_str(), ": ", error.message().as_str()),
            );
        }
    };
    match &declaration.alias {
        None => Ok(Link { source, alias: None }),
        Some(alias) => match LinkAlias::new(alias.value.as_str()) {
            Ok(name) => Ok(Link { source, alias: Some(name) }),
            Err(error) => Err(
                invalid_because(alias.range, alias.value.as_str(), ": ", error.message().as_str()),
            ),
        },
    }
}

fn links(declarations: &Vec<LinkDeclaration>) -> (made: Result<Vec<Link>, ConversionError>)
    ensures
        match made {
            Ok(found) => links_from(views(declarations@), 0, Seq::empty()) matches Ok(model)
                && model == views(found@),
            Err(error) => links_from(views(declarations@), 0, Seq::empty()) matches Err(wrong)
                && wrong == error@,
        },
{
    let ghost models = views(declarations@);
    let mut collected: Vec<Link> = Vec::new();
    assert(views(collected@) =~= Seq::<LinkModel>::empty());
    let mut at: usize = 0;
    while at < declarations.len()
        invariant
            at <= declarations@.len(),
            models == views(declarations@),
            links_from(models, 0, Seq::empty()) == links_from(
                models,
                at as int,
                views(collected@),
            ),
        decreases declarations@.len() - at,
    {
        assert(models[at as int] == declarations@[at as int]@);
        match link(&declarations[at]) {
            Err(error) => {
                return Err(error);
            }
            Ok(found) => {
                proof {
                    views_push(collected@, found);
                }
                collected.push(found);
            }
        }
        at = at + 1;
    }
    Ok(collected)
}

fn constraint(declaration: &Option<super::EndpointConstraint>) -> (made: Result<
    Option<EndpointConstraint>,
    ConversionError,
>)
    ensures
        match made {
            Ok(found) => constraint_from(view_of(*declaration)) matches Ok(model) && model
                == view_of(found),
            Err(error) => constraint_from(view_of(*declaration)) matches Err(wrong) && wrong
                == error@,
        },
{
    match declaration {
        None => Ok(None),
        Some(names) => match Label::new(names.source.value.as_str()) {
            Err(error) => Err(invalid(names.source.range, error.message().as_str())),
            Ok(source) => match Label::new(names.target.value.as_str()) {
                Err(error) => Err(invalid(names.target.range, error.message().as_str())),
                Ok(target) => Ok(Some(EndpointConstraint { source, target })),
            },
        },
    }
}

fn schema(declaration: &SchemaDeclaration) -> (made: Result<Schema, ConversionError>)
    ensures
        match made {
            Ok(found) => schema_from(declaration@) matches Ok(model) && model == found@,
            Err(error) => schema_from(declaration@) matches Err(wrong) && wrong == error@,
        },
{
    let written = &declaration.name;
    let name = match Label::new(written.value.as_str()) {
        Ok(found) => found,
        Err(error) => {
            return Err(
                invalid_because(
                    written.range,
                    written.value.as_str(),
                    " is not a schema name: ",
                    error.message().as_str(),
                ),
            );
        }
    };
    let endpoints = match constraint(&declaration.endpoints) {
        Err(error) => return Err(error),
        Ok(found) => found,
    };
    let ghost models = declaration@.fields;
    let mut fields: Vec<SchemaField> = Vec::new();
    assert(views(fields@) =~= Seq::<SchemaFieldModel>::empty());
    let mut at: usize = 0;
    while at < declaration.fields.len()
        invariant
            at <= declaration.fields@.len(),
            models == declaration@.fields,
            name_fault(declaration@.name.value) is None,
            constraint_from(declaration@.endpoints) matches Ok(model) && model == view_of(
                endpoints,
            ),
            fields_from(models, 0, Seq::empty()) == fields_from(
                models,
                at as int,
                views(fields@),
            ),
        decreases declaration.fields@.len() - at,
    {
        let field = &declaration.fields[at];
        assert(models[at as int] == field@);
        match PropertyKey::new(field.key.value.as_str()) {
            Err(error) => {
                return Err(
                    invalid_because(
                        field.key.range,
                        field.key.value.as_str(),
                        " is not a field key: ",
                        error.message().as_str(),
                    ),
                );
            }
            Ok(key) => {
                let made = SchemaField {
                    key,
                    field_type: field.field_type.value,
                    required: !field.optional,
                };
                proof {
                    views_push(fields@, made);
                }
                fields.push(made);
            }
        }
        at = at + 1;
    }
    Ok(Schema { name, endpoints, fields: sort(fields) })
}

fn schemas(declarations: &Vec<SchemaDeclaration>) -> (made: Result<Vec<Schema>, ConversionError>)
    ensures
        match made {
            Ok(found) => schemas_from(views(declarations@), 0, Seq::empty()) matches Ok(model)
                && model == views(found@),
            Err(error) => schemas_from(views(declarations@), 0, Seq::empty()) matches Err(wrong)
                && wrong == error@,
        },
{
    let ghost models = views(declarations@);
    let mut collected: Vec<Schema> = Vec::new();
    assert(views(collected@) =~= Seq::<SchemaModel>::empty());
    let mut at: usize = 0;
    while at < declarations.len()
        invariant
            at <= declarations@.len(),
            models == views(declarations@),
            schemas_from(models, 0, Seq::empty()) == schemas_from(
                models,
                at as int,
                views(collected@),
            ),
        decreases declarations@.len() - at,
    {
        assert(models[at as int] == declarations@[at as int]@);
        match schema(&declarations[at]) {
            Err(error) => {
                return Err(error);
            }
            Ok(found) => {
                proof {
                    views_push(collected@, found);
                }
                collected.push(found);
            }
        }
        at = at + 1;
    }
    Ok(collected)
}

// -- Records -----------------------------------------------------------------------

/// What has been built so far.
pub struct Build {
    /// The nodes.
    pub nodes: Seq<NodeModel>,
    /// The identifiers of the declaration names.
    pub names: Seq<(Seq<char>, LocalNodeId)>,
    /// The edges.
    pub edges: Seq<EdgeModel>,
    /// How many minted identifiers have been used.
    pub used: nat,
}

/// A node with its labels, properties and contributions in order.
pub open spec fn canonical_node(
    id: LocalNodeId,
    labels: Seq<Seq<char>>,
    properties: Seq<(Seq<char>, PropertyModel)>,
    contributions: Seq<ContributionModel>,
) -> NodeModel {
    NodeModel {
        id,
        labels: sorted::<Label>(labels),
        properties: sorted::<(PropertyKey, PropertyValue)>(properties),
        contributions: sorted::<Contribution>(contributions),
    }
}

/// The identifier a node gets, and whether a minted one was used.
pub open spec fn node_id(
    stated: Option<Seq<char>>,
    range: SourceRange,
    minted: Seq<Seq<u8>>,
    used: nat,
) -> Converted<(LocalNodeId, nat)> {
    match stated {
        None => Ok((LocalNodeId::with_bytes(minted[used as int]), used + 1)),
        Some(text) => match id_fault(text, true) {
            None => Ok((LocalNodeId::with_text(text), used)),
            Some(wrong) => refused(range, text + ": "@ + wrong),
        },
    }
}

/// The identifier an edge gets, and whether a minted one was used.
pub open spec fn edge_id(
    stated: Option<Seq<char>>,
    range: SourceRange,
    minted: Seq<Seq<u8>>,
    used: nat,
) -> Converted<(LocalEdgeId, nat)> {
    match stated {
        None => Ok((LocalEdgeId::with_bytes(minted[used as int]), used + 1)),
        Some(text) => match id_fault(text, false) {
            None => Ok((LocalEdgeId::with_text(text), used)),
            Some(wrong) => refused(range, text + ": "@ + wrong),
        },
    }
}

/// What has been built after one more node.
pub open spec fn node_added(
    build: Build,
    declaration: NodeDeclarationModel,
    minted: Seq<Seq<u8>>,
) -> Converted<Build> {
    match parts_of(declaration.record) {
        Err(wrong) => Err(wrong),
        Ok(parts) => match node_id(parts.id, declaration.name.range, minted, build.used) {
            Err(wrong) => Err(wrong),
            Ok((id, used)) => match labels_from(
                declaration.schemas,
                parts.extra,
                declaration.name.range,
            ) {
                Err(wrong) => Err(wrong),
                Ok(labels) => match contributions_from(
                    declaration.record.contributions,
                    0,
                    Seq::empty(),
                ) {
                    Err(wrong) => Err(wrong),
                    Ok(owned) => Ok(
                        Build {
                            nodes: build.nodes.push(
                                canonical_node(id, labels, parts.properties, owned),
                            ),
                            names: build.names.push((declaration.name.value, id)),
                            edges: build.edges,
                            used,
                        },
                    ),
                },
            },
        },
    }
}

/// What has been built after the first `count` nodes.
pub open spec fn nodes_built(
    declarations: Seq<NodeDeclarationModel>,
    count: int,
    minted: Seq<Seq<u8>>,
) -> Converted<Build>
    decreases count,
{
    if count <= 0 {
        Ok(Build { nodes: Seq::empty(), names: Seq::empty(), edges: Seq::empty(), used: 0 })
    } else {
        match nodes_built(declarations, count - 1, minted) {
            Err(wrong) => Err(wrong),
            Ok(build) => node_added(build, declarations[count - 1], minted),
        }
    }
}

/// The identifier of the last of the first `count` names that is this one.
pub open spec fn find_name(
    names: Seq<(Seq<char>, LocalNodeId)>,
    count: int,
    name: Seq<char>,
) -> Option<LocalNodeId>
    decreases count,
{
    if count <= 0 {
        None
    } else if names[count - 1].0 == name {
        Some(names[count - 1].1)
    } else {
        find_name(names, count - 1, name)
    }
}

/// The node an unresolved endpoint gets.
pub open spec fn placeholder(id: LocalNodeId) -> NodeModel {
    NodeModel {
        id,
        labels: seq!["Placeholder"@],
        properties: Seq::empty(),
        contributions: Seq::empty(),
    }
}

/// What has been built after one more endpoint, and what the endpoint names.
///
/// An endpoint naming no declaration becomes a Placeholder node, so no edge ever has a
/// missing endpoint.
pub open spec fn endpoint_added(
    build: Build,
    endpoint: EndpointModel,
    minted: Seq<Seq<u8>>,
) -> Converted<(ReferenceModel, Build)> {
    match endpoint {
        EndpointModel::Local(name) => match find_name(
            build.names,
            build.names.len() as int,
            name.value,
        ) {
            Some(id) => Ok((ReferenceModel::Local(id), build)),
            None => {
                let id = LocalNodeId::with_bytes(minted[build.used as int]);
                Ok(
                    (
                        ReferenceModel::Local(id),
                        Build {
                            nodes: build.nodes.push(placeholder(id)),
                            used: build.used + 1,
                            ..build
                        },
                    ),
                )
            },
        },
        EndpointModel::Aliased { alias, .. } => Err(
            ConversionErrorModel::ExternalEndpoint { range: alias.range, link: alias.value },
        ),
        EndpointModel::Locator { locator, .. } => Err(
            ConversionErrorModel::ExternalEndpoint { range: locator.range, link: locator.value },
        ),
    }
}

/// What has been built after one more edge.
pub open spec fn edge_added(
    build: Build,
    declaration: EdgeDeclarationModel,
    minted: Seq<Seq<u8>>,
) -> Converted<Build> {
    match parts_of(declaration.record) {
        Err(wrong) => Err(wrong),
        Ok(parts) => match edge_id(parts.id, declaration.relation.range, minted, build.used) {
            Err(wrong) => Err(wrong),
            Ok((id, used)) => match name_fault(declaration.relation.value) {
                Some(wrong) => refused(
                    declaration.relation.range,
                    declaration.relation.value + " is not a relation name: "@
                        + wrong.spec_message(),
                ),
                None => match endpoint_added(Build { used, ..build }, declaration.source, minted) {
                    Err(wrong) => Err(wrong),
                    Ok((source, second)) => match endpoint_added(
                        second,
                        declaration.target,
                        minted,
                    ) {
                        Err(wrong) => Err(wrong),
                        Ok((target, third)) => match contributions_from(
                            declaration.record.contributions,
                            0,
                            Seq::empty(),
                        ) {
                            Err(wrong) => Err(wrong),
                            Ok(owned) => Ok(
                                Build {
                                    edges: third.edges.push(
                                        EdgeModel {
                                            id,
                                            source,
                                            target,
                                            relation: declaration.relation.value,
                                            properties: sorted::<(PropertyKey, PropertyValue)>(
                                                parts.properties,
                                            ),
                                            contributions: sorted::<Contribution>(owned),
                                        },
                                    ),
                                    ..third
                                },
                            ),
                        },
                    },
                },
            },
        },
    }
}

/// What has been built after all nodes and the first `count` edges.
pub open spec fn edges_built(file: SourceFileModel, count: int, minted: Seq<Seq<u8>>) -> Converted<
    Build,
>
    decreases count,
{
    if count <= 0 {
        nodes_built(file.nodes, file.nodes.len() as int, minted)
    } else {
        match edges_built(file, count - 1, minted) {
            Err(wrong) => Err(wrong),
            Ok(build) => edge_added(build, file.edges[count - 1], minted),
        }
    }
}

/// The identifier that a record body states, if it states one.
pub open spec fn stated_in(record: RecordBodyModel, node: bool) -> Option<Seq<u8>> {
    match parts_of(record) {
        Err(_) => None,
        Ok(parts) => match parts.id {
            None => None,
            Some(text) => if id_fault(text, node) is Some {
                None
            } else if node {
                Some(LocalNodeId::with_text(text)@)
            } else {
                Some(LocalEdgeId::with_text(text)@)
            },
        },
    }
}

/// Whether a node, or else an edge, of a document states an identifier with these bytes.
pub open spec fn states(file: SourceFileModel, node: bool, bytes: Seq<u8>) -> bool {
    if node {
        exists|i: int|
            0 <= i < file.nodes.len() && stated_in((#[trigger] file.nodes[i]).record, true) == Some(
                bytes,
            )
    } else {
        exists|i: int|
            0 <= i < file.edges.len() && stated_in((#[trigger] file.edges[i]).record, false)
                == Some(bytes)
    }
}

/// Whether one of the identifiers that were taken for a document was taken for a node, or else
/// for an edge, and has these bytes.
pub open spec fn took(
    file: SourceFileModel,
    taken: Seq<Seq<u8>>,
    node: bool,
    bytes: Seq<u8>,
) -> bool {
    exists|i: int| 0 <= i < taken.len() && wanted(file)[i] == node && #[trigger] taken[i] == bytes
}

/// The issued identifiers that are taken for a document, in the order they were issued: each
/// for what wants the next one, unless a record of the same kind states it or took it before.
pub open spec fn free_of(file: SourceFileModel, issued: Seq<Seq<u8>>) -> Seq<Seq<u8>>
    decreases issued.len(),
{
    if issued.len() == 0 {
        issued
    } else {
        let before = free_of(file, issued.drop_last());
        let node = wanted(file)[before.len() as int];
        if before.len() >= wanted(file).len() || states(file, node, issued.last()) || took(
            file,
            before,
            node,
            issued.last(),
        ) {
            before
        } else {
            before.push(issued.last())
        }
    }
}

/// Whether an endpoint names no declaration.
pub open spec fn unresolved(names: Seq<(Seq<char>, LocalNodeId)>, endpoint: EndpointModel) -> bool {
    endpoint matches EndpointModel::Local(name) && find_name(
        names,
        names.len() as int,
        name.value,
    ) is None
}

/// Whether a record body leaves its identifier to be minted.
pub open spec fn is_unnamed(record: RecordBodyModel) -> bool {
    parts_of(record) matches Ok(parts) && parts.id is None
}

/// Whether an edge leaves its identifier, or the node that an endpoint names, to be minted.
pub open spec fn edge_is_open(
    names: Seq<(Seq<char>, LocalNodeId)>,
    declaration: EdgeDeclarationModel,
) -> bool {
    is_unnamed(declaration.record) || unresolved(names, declaration.source) || unresolved(
        names,
        declaration.target,
    )
}

/// Whether a local endpoint names no node of a document.
pub open spec fn names_nobody(file: SourceFileModel, endpoint: EndpointModel) -> bool {
    endpoint matches EndpointModel::Local(name) && forall|i: int|
        0 <= i < file.nodes.len() ==> (#[trigger] file.nodes[i]).name.value != name.value
}

/// Whether a document leaves an identifier to be minted: a declaration states none, or an
/// edge names a node that is not declared.
pub open spec fn leaves_open(file: SourceFileModel) -> bool {
    ||| exists|i: int| 0 <= i < file.nodes.len() && is_unnamed((#[trigger] file.nodes[i]).record)
    ||| exists|i: int|
        0 <= i < file.edges.len() && (is_unnamed((#[trigger] file.edges[i]).record) || names_nobody(
            file,
            file.edges[i].source,
        ) || names_nobody(file, file.edges[i].target))
}

/// What the first `count` nodes leave to be minted: an identifier of a node for each that
/// states none.
pub open spec fn wanted_by_nodes(declarations: Seq<NodeDeclarationModel>, count: int) -> Seq<bool>
    decreases count,
{
    if count <= 0 {
        Seq::empty()
    } else if is_unnamed(declarations[count - 1].record) {
        wanted_by_nodes(declarations, count - 1).push(true)
    } else {
        wanted_by_nodes(declarations, count - 1)
    }
}

/// What an edge leaves to be minted: its own identifier, and one of a node for each endpoint
/// that names a node that is not declared.
pub open spec fn wanted_by_edge(file: SourceFileModel, edge: EdgeDeclarationModel) -> Seq<bool> {
    let own = if is_unnamed(edge.record) {
        seq![false]
    } else {
        Seq::empty()
    };
    let source = if names_nobody(file, edge.source) {
        own.push(true)
    } else {
        own
    };
    if names_nobody(file, edge.target) {
        source.push(true)
    } else {
        source
    }
}

/// What all nodes and the first `count` edges leave to be minted.
pub open spec fn wanted_by_edges(file: SourceFileModel, count: int) -> Seq<bool>
    decreases count,
{
    if count <= 0 {
        wanted_by_nodes(file.nodes, file.nodes.len() as int)
    } else {
        wanted_by_edges(file, count - 1) + wanted_by_edge(file, file.edges[count - 1])
    }
}

/// The identifiers that a document leaves to be minted, in the order they are: for each,
/// whether it is that of a node.
pub open spec fn wanted(file: SourceFileModel) -> Seq<bool> {
    wanted_by_edges(file, file.edges.len() as int)
}

/// Whether another identifier is wanted, and the last that were issued, as many as can be
/// counted, were all in use.
pub open spec fn spent(file: SourceFileModel, issued: Seq<Seq<u8>>) -> bool {
    &&& free_of(file, issued).len() < wanted(file).len()
    &&& issued.len() >= u64::MAX
    &&& free_of(file, issued) == free_of(file, issued.take(issued.len() - u64::MAX))
}

/// Whether an error says that the identifiers are spent, which a document that leaves one to
/// be minted meets where as many as can be counted were issued in vain.
pub open spec fn are_spent(
    file: SourceFileModel,
    error: ConversionErrorModel,
    issued: Seq<Seq<u8>>,
) -> bool {
    error is IdentifiersSpent && leaves_open(file) && spent(file, issued)
}

/// The graph a document stands for, and how many of the minted identifiers it used.
///
/// The result is ordered canonically rather than as the file happened to be: the same
/// content written in any declaration order gives the same graph.
pub open spec fn graph_from(file: SourceFileModel, minted: Seq<Seq<u8>>) -> Converted<
    (GraphModel, nat),
> {
    if file.version.value != LANGUAGE_VERSION {
        Err(ConversionErrorModel::UnsupportedVersion { found: file.version.value })
    } else {
        match links_from(file.links, 0, Seq::empty()) {
            Err(wrong) => Err(wrong),
            Ok(links) => match schemas_from(file.schemas, 0, Seq::empty()) {
                Err(wrong) => Err(wrong),
                Ok(schemas) => match edges_built(file, file.edges.len() as int, minted) {
                    Err(wrong) => Err(wrong),
                    Ok(build) => Ok(
                        (
                            GraphModel {
                                nodes: sorted::<Node>(build.nodes),
                                edges: sorted::<Edge>(build.edges),
                                links: sorted::<Link>(links),
                                schemas: sorted::<Schema>(schemas),
                            },
                            build.used,
                        ),
                    ),
                },
            },
        }
    }
}

/// Whether a longer list of minted identifiers starts with a shorter one.
pub open spec fn starts_with(longer: Seq<Seq<u8>>, shorter: Seq<Seq<u8>>) -> bool {
    shorter.len() <= longer.len() && forall|i: int|
        0 <= i < shorter.len() ==> longer[i] == #[trigger] shorter[i]
}

/// What is built from the identifiers minted so far stays, however many follow.
proof fn nodes_built_stays(
    declarations: Seq<NodeDeclarationModel>,
    count: int,
    minted: Seq<Seq<u8>>,
    more: Seq<Seq<u8>>,
)
    requires
        starts_with(more, minted),
        nodes_built(declarations, count, minted) matches Ok(build) && build.used <= minted.len(),
    ensures
        nodes_built(declarations, count, more) == nodes_built(declarations, count, minted),
    decreases count,
{
    if count > 0 {
        assert(nodes_built(declarations, count - 1, minted) is Ok);
        nodes_built_stays(declarations, count - 1, minted, more);
    }
}

/// What is built from the identifiers minted so far stays, however many follow.
proof fn edges_built_stays(
    file: SourceFileModel,
    count: int,
    minted: Seq<Seq<u8>>,
    more: Seq<Seq<u8>>,
)
    requires
        starts_with(more, minted),
        edges_built(file, count, minted) matches Ok(build) && build.used <= minted.len(),
    ensures
        edges_built(file, count, more) == edges_built(file, count, minted),
    decreases count,
{
    if count > 0 {
        assert(edges_built(file, count - 1, minted) is Ok);
        edges_built_stays(file, count - 1, minted, more);
    } else {
        nodes_built_stays(file.nodes, file.nodes.len() as int, minted, more);
    }
}

/// What is wrong with one node is wrong with the document.
proof fn nodes_built_fails(
    declarations: Seq<NodeDeclarationModel>,
    count: int,
    total: int,
    minted: Seq<Seq<u8>>,
)
    requires
        count <= total,
        nodes_built(declarations, count, minted) is Err,
    ensures
        nodes_built(declarations, total, minted) == nodes_built(declarations, count, minted),
    decreases total - count,
{
    if count < total {
        nodes_built_fails(declarations, count, total - 1, minted);
    }
}

/// What is wrong with one edge is wrong with the document.
proof fn edges_built_fails(file: SourceFileModel, count: int, total: int, minted: Seq<Seq<u8>>)
    requires
        0 <= count <= total,
        edges_built(file, count, minted) is Err,
    ensures
        edges_built(file, total, minted) == edges_built(file, count, minted),
    decreases total - count,
{
    if count < total {
        edges_built_fails(file, count, total - 1, minted);
    }
}

/// The records built so far.
struct Builder {
    nodes: Vec<Node>,
    names: Vec<(String, LocalNodeId)>,
    edges: Vec<Edge>,
}

spec fn name_models(names: Seq<(String, LocalNodeId)>) -> Seq<(Seq<char>, LocalNodeId)> {
    Seq::new(names.len(), |i: int| (names[i].0@, names[i].1))
}

impl Builder {
    spec fn model(&self, used: nat) -> Build {
        Build {
            nodes: views(self.nodes@),
            names: name_models(self.names@),
            edges: views(self.edges@),
            used,
        }
    }
}

fn lookup(names: &Vec<(String, LocalNodeId)>, name: &str) -> (found: Option<LocalNodeId>)
    ensures
        found == find_name(name_models(names@), names@.len() as int, name@),
{
    let ghost models = name_models(names@);
    let mut at: usize = names.len();
    while at > 0
        invariant
            at <= names@.len(),
            models == name_models(names@),
            find_name(models, names@.len() as int, name@) == find_name(models, at as int, name@),
        decreases at,
    {
        assert(models[at - 1] == (names@[at - 1].0@, names@[at - 1].1));
        if same(names[at - 1].0.as_str(), name) {
            return Some(names[at - 1].1);
        }
        at = at - 1;
    }
    None
}

fn in_order_pairs(properties: Vec<(PropertyKey, PropertyValue)>) -> (made: Vec<
    (PropertyKey, PropertyValue),
>)
    ensures
        pairs(made@) == sorted::<(PropertyKey, PropertyValue)>(pairs(properties@)),
{
    assert(pairs(properties@) =~= views(properties@));
    let made = sort(properties);
    assert(pairs(made@) =~= views(made@));
    made
}

/// The identifiers in use: those of nodes, and those of edges by their bytes.
struct Taken {
    nodes: Vec<LocalNodeId>,
    edges: Vec<LocalNodeId>,
}

impl Taken {
    spec fn of(&self, node: bool) -> Seq<LocalNodeId> {
        if node {
            self.nodes@
        } else {
            self.edges@
        }
    }

    /// Whether it holds every identifier that a document states, and every one that was taken
    /// of those issued so far, and no other.
    spec fn covers(&self, file: SourceFileModel, issued: Seq<Seq<u8>>) -> bool {
        covers(self.nodes@, true, file, issued) && covers(self.edges@, false, file, issued)
    }

    fn holds(&self, node: bool, id: LocalNodeId) -> (answer: bool)
        ensures
            answer == is_taken(self.of(node), id@),
    {
        if node {
            was_taken(&self.nodes, id)
        } else {
            was_taken(&self.edges, id)
        }
    }

    fn hold(&mut self, node: bool, id: LocalNodeId)
        ensures
            final(self).of(node) == old(self).of(node).push(id),
            final(self).of(!node) == old(self).of(!node),
    {
        if node {
            self.nodes.push(id);
        } else {
            self.edges.push(id);
        }
    }
}

/// Whether a list holds every identifier of a kind that a document states, and every one that
/// was taken for it of those issued so far, and no other.
#[verifier::opaque]
spec fn covers(
    taken: Seq<LocalNodeId>,
    node: bool,
    file: SourceFileModel,
    issued: Seq<Seq<u8>>,
) -> bool {
    forall|bytes: Seq<u8>| #[trigger]
        is_taken(taken, bytes) == (states(file, node, bytes) || took(
            file,
            free_of(file, issued),
            node,
            bytes,
        ))
}

spec fn is_taken(taken: Seq<LocalNodeId>, bytes: Seq<u8>) -> bool {
    exists|i: int| 0 <= i < taken.len() && (#[trigger] taken[i])@ == bytes
}

fn was_taken(taken: &Vec<LocalNodeId>, id: LocalNodeId) -> (answer: bool)
    ensures
        answer == is_taken(taken@, id@),
{
    let mut at: usize = 0;
    while at < taken.len()
        invariant
            at <= taken@.len(),
            forall|i: int| 0 <= i < at ==> (#[trigger] taken@[i])@ != id@,
        decreases taken@.len() - at,
    {
        if taken[at].same(&id) {
            return true;
        }
        at = at + 1;
    }
    false
}

proof fn taken_with_one_more(taken: Seq<LocalNodeId>, id: LocalNodeId)
    ensures
        forall|bytes: Seq<u8>| #[trigger]
            is_taken(taken.push(id), bytes) == (is_taken(taken, bytes) || bytes == id@),
{
    let more = taken.push(id);
    assert forall|bytes: Seq<u8>| #[trigger]
        is_taken(more, bytes) == (is_taken(taken, bytes) || bytes == id@) by {
        if is_taken(taken, bytes) {
            let i = choose|i: int| 0 <= i < taken.len() && (#[trigger] taken[i])@ == bytes;
            assert(more[i]@ == bytes);
        }
        if bytes == id@ {
            assert(more[taken.len() as int]@ == bytes);
        }
        if is_taken(more, bytes) {
            let i = choose|i: int| 0 <= i < more.len() && (#[trigger] more[i])@ == bytes;
            if i < taken.len() {
                assert(taken[i]@ == bytes);
            }
        }
    }
}

/// A list of the identifiers that a document states.
fn stated(file: &SourceFile) -> (taken: Taken)
    ensures
        taken.covers(file@, Seq::empty()),
{
    let ghost model = file@;
    let mut taken: Vec<LocalNodeId> = Vec::new();
    let mut at: usize = 0;
    while at < file.nodes.len()
        invariant
            at <= file.nodes@.len(),
            model == file@,
            forall|bytes: Seq<u8>| #[trigger]
                is_taken(taken@, bytes) == exists|i: int|
                    0 <= i < at && stated_in((#[trigger] model.nodes[i]).record, true) == Some(bytes),
        decreases file.nodes@.len() - at,
    {
        let ghost before = taken@;
        assert(model.nodes[at as int] == file.nodes@[at as int]@);
        let found = match split_record(&file.nodes[at].record) {
            Err(_) => None,
            Ok(parts) => match parts.id {
                None => None,
                Some(text) => match LocalNodeId::from_str(text.as_str()) {
                    Ok(id) => {
                        proof {
                            id.is_found();
                        }
                        Some(id)
                    }
                    Err(_) => None,
                },
            },
        };
        assert(stated_in(model.nodes[at as int].record, true) == (match found {
            Some(id) => Some(id@),
            None => None::<Seq<u8>>,
        }));
        match found {
            Some(id) => {
                proof {
                    taken_with_one_more(taken@, id);
                }
                taken.push(id);
            }
            None => {}
        }
        proof {
            assert forall|bytes: Seq<u8>| #[trigger]
                is_taken(taken@, bytes) == exists|i: int|
                    0 <= i < at + 1 && stated_in((#[trigger] model.nodes[i]).record, true) == Some(
                        bytes,
                    ) by {
                let one = stated_in(model.nodes[at as int].record, true) == Some(bytes);
                assert(is_taken(taken@, bytes) == (is_taken(before, bytes) || one));
                if is_taken(before, bytes) {
                    let i = choose|i: int|
                        0 <= i < at && stated_in((#[trigger] model.nodes[i]).record, true) == Some(
                            bytes,
                        );
                    assert(0 <= i < at + 1);
                }
            }
        }
        at = at + 1;
    }
    let nodes = taken;
    let mut taken: Vec<LocalNodeId> = Vec::new();
    let mut at: usize = 0;
    while at < file.edges.len()
        invariant
            at <= file.edges@.len(),
            model == file@,
            forall|bytes: Seq<u8>| #[trigger]
                is_taken(taken@, bytes) == exists|i: int|
                    0 <= i < at && stated_in((#[trigger] model.edges[i]).record, false) == Some(
                        bytes,
                    ),
        decreases file.edges@.len() - at,
    {
        let ghost before = taken@;
        assert(model.edges[at as int] == file.edges@[at as int]@);
        let found = match split_record(&file.edges[at].record) {
            Err(_) => None,
            Ok(parts) => match parts.id {
                None => None,
                Some(text) => match LocalEdgeId::from_str(text.as_str()) {
                    Ok(id) => {
                        proof {
                            id.is_found();
                        }
                        Some(LocalNodeId::from_bytes(id.to_bytes()))
                    }
                    Err(_) => None,
                },
            },
        };
        assert(stated_in(model.edges[at as int].record, false) == (match found {
            Some(id) => Some(id@),
            None => None::<Seq<u8>>,
        }));
        match found {
            Some(id) => {
                proof {
                    taken_with_one_more(taken@, id);
                }
                taken.push(id);
            }
            None => {}
        }
        proof {
            assert forall|bytes: Seq<u8>| #[trigger]
                is_taken(taken@, bytes) == exists|i: int|
                    0 <= i < at + 1 && stated_in((#[trigger] model.edges[i]).record, false) == Some(
                        bytes,
                    ) by {
                let one = stated_in(model.edges[at as int].record, false) == Some(bytes);
                assert(is_taken(taken@, bytes) == (is_taken(before, bytes) || one));
                if is_taken(before, bytes) {
                    let i = choose|i: int|
                        0 <= i < at && stated_in((#[trigger] model.edges[i]).record, false) == Some(
                            bytes,
                        );
                    assert(0 <= i < at + 1);
                }
            }
        }
        at = at + 1;
    }
    assert(free_of(model, Seq::empty()) =~= Seq::empty());
    proof {
        reveal(covers);
    }
    Taken { nodes, edges: taken }
}

/// Whether what a document wants next, behind the first `used` identifiers, is this.
pub open spec fn wants_next(file: SourceFileModel, used: int, next: Seq<bool>) -> bool {
    &&& 0 <= used
    &&& used + next.len() <= wanted(file).len()
    &&& forall|i: int| 0 <= i < next.len() ==> wanted(file)[used + i] == #[trigger] next[i]
}

/// What is wanted next stays so, whoever took the first part of it.
pub(crate) proof fn wants_rest(file: SourceFileModel, used: int, next: Seq<bool>, count: int)
    requires
        wants_next(file, used, next),
        0 <= count <= next.len(),
    ensures
        wants_next(file, used + count, next.skip(count)),
        count < next.len() ==> wanted(file)[used + count] == next[count],
{
    let rest = next.skip(count);
    assert forall|i: int| 0 <= i < rest.len() implies wanted(file)[used + count + i]
        == #[trigger] rest[i] by {
        assert(rest[i] == next[count + i]);
    }
}

/// One more that is taken for a kind is taken for that kind alone.
proof fn took_one_more(
    file: SourceFileModel,
    free: Seq<Seq<u8>>,
    fresh: Seq<u8>,
    node: bool,
    bytes: Seq<u8>,
)
    ensures
        took(file, free.push(fresh), node, bytes) == (took(file, free, node, bytes) || (wanted(
            file,
        )[free.len() as int] == node && bytes == fresh)),
{
    let more = free.push(fresh);
    if took(file, free, node, bytes) {
        let k = choose|k: int|
            0 <= k < free.len() && wanted(file)[k] == node && #[trigger] free[k] == bytes;
        assert(more[k] == bytes);
    }
    if wanted(file)[free.len() as int] == node && bytes == fresh {
        assert(more[free.len() as int] == bytes);
    }
    if took(file, more, node, bytes) {
        let k = choose|k: int|
            0 <= k < more.len() && wanted(file)[k] == node && #[trigger] more[k] == bytes;
        if k < free.len() {
            assert(free[k] == bytes);
        }
    }
}

/// Mints an identifier that no record of the kind that wants the next one has, and takes it.
///
/// `None` only where as many identifiers as can be counted were all in use.
fn mint(
    minter: &mut Minter,
    taken: &mut Taken,
    node: bool,
    Ghost(file): Ghost<SourceFileModel>,
    Ghost(issued): Ghost<Seq<Seq<u8>>>,
) -> (made: (Option<LocalNodeId>, Ghost<Seq<Seq<u8>>>))
    requires
        old(taken).covers(file, issued),
        free_of(file, issued).len() < wanted(file).len(),
        wanted(file)[free_of(file, issued).len() as int] == node,
    ensures
        final(taken).covers(file, made.1@),
        issued_on(*old(minter), *final(minter), issued, made.1@),
        match made.0 {
            Some(id) => free_of(file, made.1@) == free_of(file, issued).push(id@),
            None => free_of(file, made.1@) == free_of(file, issued) && spent(file, made.1@),
        },
{
    let ghost start = *minter;
    let ghost mut now = issued;
    proof {
        issued_still(start, issued);
    }
    let mut tries: u64 = 0;
    while tries < u64::MAX
        invariant
            start == *old(minter),
            *taken == *old(taken),
            taken.covers(file, now),
            free_of(file, now) == free_of(file, issued),
            free_of(file, issued).len() < wanted(file).len(),
            wanted(file)[free_of(file, issued).len() as int] == node,
            now.len() == issued.len() + tries,
            starts_with(now, issued),
            issued_on(start, *minter, issued, now),
        decreases u64::MAX - tries,
    {
        let ghost before = *minter;
        let ghost earlier = now;
        let ghost free = free_of(file, earlier);
        let id = minter.node();
        proof {
            reveal(covers);
            now = earlier.push(id@);
            issued_step(before, *minter, earlier, id@);
            issued_chain(start, before, *minter, issued, earlier, now);
            assert(now.drop_last() =~= earlier);
            assert(is_taken(taken.of(node), id@) == (states(file, node, id@) || took(
                file,
                free,
                node,
                id@,
            )));
        }
        if !taken.holds(node, id) {
            proof {
                taken_with_one_more(taken.of(node), id);
                assert(free_of(file, now) == free.push(id@));
                assert forall|bytes: Seq<u8>| #[trigger]
                    is_taken(taken.of(node).push(id), bytes) == (states(file, node, bytes) || took(
                        file,
                        free_of(file, now),
                        node,
                        bytes,
                    )) by {
                    assert(is_taken(taken.of(node), bytes) == (states(file, node, bytes) || took(
                        file,
                        free,
                        node,
                        bytes,
                    )));
                    took_one_more(file, free, id@, node, bytes);
                }
                let other = !node;
                let rest = taken.of(other);
                assert forall|bytes: Seq<u8>| #[trigger]
                    is_taken(rest, bytes) == (states(file, other, bytes) || took(
                        file,
                        free_of(file, now),
                        other,
                        bytes,
                    )) by {
                    took_one_more(file, free, id@, other, bytes);
                }
            }
            taken.hold(node, id);
            return (Some(id), Ghost(now));
        }
        tries = tries + 1;
    }
    proof {
        assert(now.take(now.len() - u64::MAX) =~= issued);
    }
    (None, Ghost(now))
}

fn add_node(
    builder: &mut Builder,
    declaration: &NodeDeclaration,
    minter: &mut Minter,
    taken: &mut Taken,
    Ghost(file): Ghost<SourceFileModel>,
    Ghost(issued): Ghost<Seq<Seq<u8>>>,
) -> (made: (Result<(), ConversionError>, Ghost<Seq<Seq<u8>>>))
    requires
        old(taken).covers(file, issued),
        is_unnamed(declaration@.record) ==> wants_next(
            file,
            free_of(file, issued).len() as int,
            seq![true],
        ),
    ensures
        final(taken).covers(file, made.1@),
        issued_on(*old(minter), *final(minter), issued, made.1@),
        starts_with(free_of(file, made.1@), free_of(file, issued)),
        match made.0 {
            Ok(_) => node_added(
                old(builder).model(free_of(file, issued).len()),
                declaration@,
                free_of(file, made.1@),
            ) matches Ok(model) && model == final(builder).model(free_of(file, made.1@).len()),
            Err(error) => (node_added(
                old(builder).model(free_of(file, issued).len()),
                declaration@,
                free_of(file, made.1@),
            ) matches Err(wrong) && wrong == error@) || (error@ is IdentifiersSpent && spent(
                file,
                made.1@,
            ) && is_unnamed(declaration@.record)),
        },
{
    let ghost mut after = issued;
    proof {
        issued_still(*minter, issued);
    }
    let parts = match split_record(&declaration.record) {
        Err(error) => return (Err(error), Ghost(after)),
        Ok(found) => found,
    };
    let id = match &parts.id {
        None => {
            proof {
                assert(seq![true][0]);
            }
            let (fresh, Ghost(later)) = mint(minter, taken, true, Ghost(file), Ghost(issued));
            proof {
                after = later;
            }
            match fresh {
                Some(id) => {
                    proof {
                        id.is_found();
                    }
                    id
                }
                None => {
                    let range = declaration.name.range;
                    return (Err(ConversionError::IdentifiersSpent { range }), Ghost(after));
                }
            }
        }
        Some(text) => match LocalNodeId::from_str(text.as_str()) {
            Ok(id) => {
                proof {
                    id.is_found();
                }
                id
            }
            Err(error) => {
                return (
                    Err(
                        invalid_because(
                            declaration.name.range,
                            text.as_str(),
                            ": ",
                            error.message().as_str(),
                        ),
                    ),
                    Ghost(after),
                );
            }
        },
    };
    let labels = match labels_for(&declaration.schemas, &parts.extra, declaration.name.range) {
        Err(error) => return (Err(error), Ghost(after)),
        Ok(found) => found,
    };
    let owned = match contributions(&declaration.record.contributions) {
        Err(error) => return (Err(error), Ghost(after)),
        Ok(found) => found,
    };
    let node = Node {
        id,
        labels: sort(labels),
        properties: in_order_pairs(parts.properties),
        contributions: sort(owned),
    };
    proof {
        views_push(builder.nodes@, node);
    }
    builder.nodes.push(node);
    builder.names.push((declaration.name.value.clone(), id));
    assert(name_models(builder.names@) =~= name_models(old(builder).names@).push(
        (declaration@.name.value, id),
    ));
    (Ok(()), Ghost(after))
}

fn add_endpoint(
    builder: &mut Builder,
    endpoint: &Endpoint,
    minter: &mut Minter,
    taken: &mut Taken,
    Ghost(file): Ghost<SourceFileModel>,
    Ghost(issued): Ghost<Seq<Seq<u8>>>,
) -> (made: (Result<NodeReference, ConversionError>, Ghost<Seq<Seq<u8>>>))
    requires
        old(taken).covers(file, issued),
        unresolved(old(builder).model(0).names, endpoint@) ==> wants_next(
            file,
            free_of(file, issued).len() as int,
            seq![true],
        ),
    ensures
        final(taken).covers(file, made.1@),
        issued_on(*old(minter), *final(minter), issued, made.1@),
        starts_with(free_of(file, made.1@), free_of(file, issued)),
        match made.0 {
            Ok(found) => endpoint_added(
                old(builder).model(free_of(file, issued).len()),
                endpoint@,
                free_of(file, made.1@),
            ) matches Ok(model) && model == (
                found@,
                final(builder).model(free_of(file, made.1@).len()),
            ),
            Err(error) => (endpoint_added(
                old(builder).model(free_of(file, issued).len()),
                endpoint@,
                free_of(file, made.1@),
            ) matches Err(wrong) && wrong == error@) || (error@ is IdentifiersSpent && spent(
                file,
                made.1@,
            ) && unresolved(old(builder).model(0).names, endpoint@)),
        },
{
    proof {
        issued_still(*minter, issued);
    }
    match endpoint {
        Endpoint::Local(name) => match lookup(&builder.names, name.value.as_str()) {
            Some(id) => (Ok(NodeReference::Local(id)), Ghost(issued)),
            None => {
                proof {
                    assert(seq![true][0]);
                }
                let (fresh, Ghost(after)) = mint(minter, taken, true, Ghost(file), Ghost(issued));
                let id = match fresh {
                    Some(id) => id,
                    None => {
                        let range = name.range;
                        return (Err(ConversionError::IdentifiersSpent { range }), Ghost(after));
                    }
                };
                proof {
                    id.is_found();
                    placeholder_is_a_name();
                }
                let mut labels: Vec<Label> = Vec::new();
                labels.push(Label::literal("Placeholder"));
                let node = Node {
                    id,
                    labels,
                    properties: Vec::new(),
                    contributions: Vec::new(),
                };
                proof {
                    assert(node@.labels =~= seq!["Placeholder"@]);
                    assert(node@.properties =~= Seq::empty());
                    assert(node@.contributions =~= Seq::empty());
                    views_push(builder.nodes@, node);
                }
                builder.nodes.push(node);
                (Ok(NodeReference::Local(id)), Ghost(after))
            }
        },
        Endpoint::Aliased { alias, .. } => (
            Err(
                ConversionError::ExternalEndpoint {
                    range: alias.range,
                    link: alias.value.clone(),
                },
            ),
            Ghost(issued),
        ),
        Endpoint::Locator { locator, .. } => (
            Err(
                ConversionError::ExternalEndpoint {
                    range: locator.range,
                    link: locator.value.clone(),
                },
            ),
            Ghost(issued),
        ),
    }
}

pub(crate) proof fn placeholder_is_a_name()
    ensures
        ascii_name("Placeholder"@),
        !reserved("Placeholder"@),
{
    reveal_strlit("Placeholder");
    assert("Placeholder"@.len() == 11);
    reveal_strlit("as");
    reveal_strlit("bytes");
    reveal_strlit("datetime");
    reveal_strlit("edge");
    reveal_strlit("false");
    reveal_strlit("node");
    reveal_strlit("schema");
    reveal_strlit("true");
}

/// An endpoint that used the identifiers minted so far stays, however many follow.
proof fn endpoint_stays(
    build: Build,
    endpoint: EndpointModel,
    minted: Seq<Seq<u8>>,
    more: Seq<Seq<u8>>,
)
    requires
        starts_with(more, minted),
        endpoint_added(build, endpoint, minted) matches Ok((_, next)) ==> next.used
            <= minted.len(),
    ensures
        endpoint_added(build, endpoint, more) == endpoint_added(build, endpoint, minted),
{
}

fn add_edge(
    builder: &mut Builder,
    declaration: &EdgeDeclaration,
    minter: &mut Minter,
    taken: &mut Taken,
    Ghost(file): Ghost<SourceFileModel>,
    Ghost(issued): Ghost<Seq<Seq<u8>>>,
) -> (made: (Result<(), ConversionError>, Ghost<Seq<Seq<u8>>>))
    requires
        old(taken).covers(file, issued),
        names_are_declared(file, old(builder).model(0).names),
        wants_next(
            file,
            free_of(file, issued).len() as int,
            wanted_by_edge(file, declaration@),
        ),
    ensures
        final(taken).covers(file, made.1@),
        issued_on(*old(minter), *final(minter), issued, made.1@),
        starts_with(free_of(file, made.1@), free_of(file, issued)),
        match made.0 {
            Ok(_) => edge_added(
                old(builder).model(free_of(file, issued).len()),
                declaration@,
                free_of(file, made.1@),
            ) matches Ok(model) && model == final(builder).model(free_of(file, made.1@).len()),
            Err(error) => (edge_added(
                old(builder).model(free_of(file, issued).len()),
                declaration@,
                free_of(file, made.1@),
            ) matches Err(wrong) && wrong == error@) || (error@ is IdentifiersSpent && spent(
                file,
                made.1@,
            ) && edge_is_open(old(builder).model(0).names, declaration@)),
        },
{
    let ghost before = builder.model(free_of(file, issued).len());
    let ghost start = *minter;
    let ghost mut after = issued;
    let ghost next = wanted_by_edge(file, declaration@);
    let ghost used = free_of(file, issued).len() as int;
    proof {
        issued_still(*minter, issued);
        unresolved_names_nobody(file, builder.model(0).names, declaration@.source);
        unresolved_names_nobody(file, builder.model(0).names, declaration@.target);
    }
    let parts = match split_record(&declaration.record) {
        Err(error) => return (Err(error), Ghost(after)),
        Ok(found) => found,
    };
    let id = match &parts.id {
        None => {
            proof {
                wants_rest(file, used, next, 0);
            }
            let (fresh, Ghost(later)) = mint(minter, taken, false, Ghost(file), Ghost(issued));
            proof {
                after = later;
            }
            match fresh {
                Some(found) => {
                    let id = LocalEdgeId::from_bytes(found.to_bytes());
                    proof {
                        id.is_found();
                    }
                    id
                }
                None => {
                    let range = declaration.relation.range;
                    return (Err(ConversionError::IdentifiersSpent { range }), Ghost(after));
                }
            }
        }
        Some(text) => match LocalEdgeId::from_str(text.as_str()) {
            Ok(id) => {
                proof {
                    id.is_found();
                }
                id
            }
            Err(error) => {
                return (
                    Err(
                        invalid_because(
                            declaration.relation.range,
                            text.as_str(),
                            ": ",
                            error.message().as_str(),
                        ),
                    ),
                    Ghost(after),
                );
            }
        },
    };
    assert(starts_with(free_of(file, after), free_of(file, issued)));
    let written = &declaration.relation;
    let relation = match RelationName::new(written.value.as_str()) {
        Ok(name) => name,
        Err(error) => {
            return (
                Err(
                    invalid_because(
                        written.range,
                        written.value.as_str(),
                        " is not a relation name: ",
                        error.message().as_str(),
                    ),
                ),
                Ghost(after),
            );
        }
    };
    let ghost first_build = Build { used: free_of(file, after).len(), ..before };
    assert(builder.model(free_of(file, after).len()) == first_build);
    let ghost middle = *minter;
    proof {
        if names_nobody(file, declaration@.source) {
            wants_rest(file, used, next, free_of(file, after).len() - used);
        }
    }
    let (first, Ghost(second_issued)) = add_endpoint(
        builder,
        &declaration.source,
        minter,
        taken,
        Ghost(file),
        Ghost(after),
    );
    proof {
        issued_chain(start, middle, *minter, issued, after, second_issued);
    }
    let source = match first {
        Err(error) => return (Err(error), Ghost(second_issued)),
        Ok(found) => found,
    };
    let ghost second_minter = *minter;
    proof {
        if names_nobody(file, declaration@.target) {
            wants_rest(file, used, next, free_of(file, second_issued).len() - used);
        }
    }
    let (second, Ghost(third_issued)) = add_endpoint(
        builder,
        &declaration.target,
        minter,
        taken,
        Ghost(file),
        Ghost(second_issued),
    );
    proof {
        issued_chain(start, second_minter, *minter, issued, second_issued, third_issued);
        endpoint_stays(
            first_build,
            declaration@.source,
            free_of(file, second_issued),
            free_of(file, third_issued),
        );
    }
    let target = match second {
        Err(error) => return (Err(error), Ghost(third_issued)),
        Ok(found) => found,
    };
    let owned = match contributions(&declaration.record.contributions) {
        Err(error) => return (Err(error), Ghost(third_issued)),
        Ok(found) => found,
    };
    let edge = Edge {
        id,
        source,
        target,
        relation,
        properties: in_order_pairs(parts.properties),
        contributions: sort(owned),
    };
    proof {
        views_push(builder.edges@, edge);
    }
    builder.edges.push(edge);
    (Ok(()), Ghost(third_issued))
}

/// The names of what was built are those of the nodes.
proof fn node_names_are_declared(
    declarations: Seq<NodeDeclarationModel>,
    count: int,
    minted: Seq<Seq<u8>>,
)
    requires
        0 <= count <= declarations.len(),
    ensures
        nodes_built(declarations, count, minted) matches Ok(build) ==> build.names.len() == count
            && forall|i: int|
            0 <= i < count ==> (#[trigger] build.names[i]).0 == declarations[i].name.value,
    decreases count,
{
    if count > 0 {
        node_names_are_declared(declarations, count - 1, minted);
    }
}

pub(crate) proof fn built_names_are_declared(file: SourceFileModel, count: int, minted: Seq<Seq<u8>>)
    requires
        0 <= count <= file.edges.len(),
    ensures
        edges_built(file, count, minted) matches Ok(build) ==> names_are_declared(file, build.names),
    decreases count,
{
    if count > 0 {
        built_names_are_declared(file, count - 1, minted);
    } else {
        node_names_are_declared(file.nodes, file.nodes.len() as int, minted);
    }
}

/// Whether names are those of the nodes of a document.
pub open spec fn names_are_declared(file: SourceFileModel, names: Seq<(Seq<char>, LocalNodeId)>) -> bool {
    names.len() == file.nodes.len() && forall|i: int|
        0 <= i < names.len() ==> (#[trigger] names[i]).0 == file.nodes[i].name.value
}

proof fn missing_name_is_nowhere(
    names: Seq<(Seq<char>, LocalNodeId)>,
    count: int,
    name: Seq<char>,
)
    requires
        count <= names.len(),
        find_name(names, count, name) is None,
    ensures
        forall|i: int| 0 <= i < count ==> (#[trigger] names[i]).0 != name,
    decreases count,
{
    if count > 0 {
        missing_name_is_nowhere(names, count - 1, name);
    }
}

proof fn found_name_is_somewhere(
    names: Seq<(Seq<char>, LocalNodeId)>,
    count: int,
    name: Seq<char>,
)
    requires
        count <= names.len(),
        find_name(names, count, name) is Some,
    ensures
        exists|i: int| 0 <= i < count && (#[trigger] names[i]).0 == name,
    decreases count,
{
    if count > 0 && names[count - 1].0 != name {
        found_name_is_somewhere(names, count - 1, name);
    }
}

pub(crate) proof fn unresolved_names_nobody(
    file: SourceFileModel,
    names: Seq<(Seq<char>, LocalNodeId)>,
    endpoint: EndpointModel,
)
    requires
        names_are_declared(file, names),
    ensures
        unresolved(names, endpoint) == names_nobody(file, endpoint),
{
    if let EndpointModel::Local(name) = endpoint {
        if unresolved(names, endpoint) {
            missing_name_is_nowhere(names, names.len() as int, name.value);
            assert forall|i: int| 0 <= i < file.nodes.len() implies (
            #[trigger] file.nodes[i]).name.value != name.value by {
                assert(names[i].0 == file.nodes[i].name.value);
            }
        } else {
            found_name_is_somewhere(names, names.len() as int, name.value);
            let i = choose|i: int| 0 <= i < names.len() && (#[trigger] names[i]).0 == name.value;
            assert(file.nodes[i].name.value == name.value);
        }
    }
}

/// What the first nodes want comes first.
proof fn nodes_want_first(declarations: Seq<NodeDeclarationModel>, count: int, total: int)
    requires
        0 <= count <= total,
    ensures
        wanted_by_nodes(declarations, count).is_prefix_of(wanted_by_nodes(declarations, total)),
    decreases total - count,
{
    if count < total {
        nodes_want_first(declarations, count, total - 1);
    }
}

/// What the first edges want comes first, behind what the nodes want.
proof fn edges_want_first(file: SourceFileModel, count: int, total: int)
    requires
        0 <= count <= total,
    ensures
        wanted_by_edges(file, count).is_prefix_of(wanted_by_edges(file, total)),
    decreases total - count,
{
    if count < total {
        edges_want_first(file, count, total - 1);
    }
}

pub(crate) proof fn node_is_next(file: SourceFileModel, at: int)
    requires
        0 <= at < file.nodes.len(),
        is_unnamed(file.nodes[at].record),
    ensures
        wants_next(file, wanted_by_nodes(file.nodes, at).len() as int, seq![true]),
{
    let here = wanted_by_nodes(file.nodes, at + 1);
    nodes_want_first(file.nodes, at + 1, file.nodes.len() as int);
    edges_want_first(file, 0, file.edges.len() as int);
    assert(here.last());
    assert(wanted(file)[here.len() - 1] == here[here.len() - 1]);
}

pub(crate) proof fn edge_is_next(file: SourceFileModel, at: int)
    requires
        0 <= at < file.edges.len(),
    ensures
        wants_next(
            file,
            wanted_by_edges(file, at).len() as int,
            wanted_by_edge(file, file.edges[at]),
        ),
{
    let here = wanted_by_edges(file, at + 1);
    let next = wanted_by_edge(file, file.edges[at]);
    let used = wanted_by_edges(file, at).len() as int;
    edges_want_first(file, at + 1, file.edges.len() as int);
    assert forall|i: int| 0 <= i < next.len() implies wanted(file)[used + i] == #[trigger] next[i] by {
        assert(here[used + i] == next[i]);
    }
}

/// What the nodes that were built used is what they want.
pub(crate) proof fn nodes_use_what_they_want(
    declarations: Seq<NodeDeclarationModel>,
    count: int,
    minted: Seq<Seq<u8>>,
)
    requires
        0 <= count <= declarations.len(),
    ensures
        nodes_built(declarations, count, minted) matches Ok(build) ==> build.used
            == wanted_by_nodes(declarations, count).len(),
    decreases count,
{
    if count > 0 {
        nodes_use_what_they_want(declarations, count - 1, minted);
    }
}

/// What the records that were built used is what they want.
pub(crate) proof fn edges_use_what_they_want(
    file: SourceFileModel,
    count: int,
    minted: Seq<Seq<u8>>,
)
    requires
        0 <= count <= file.edges.len(),
    ensures
        edges_built(file, count, minted) matches Ok(build) ==> build.used == wanted_by_edges(
            file,
            count,
        ).len(),
    decreases count,
{
    if count > 0 {
        edges_use_what_they_want(file, count - 1, minted);
        built_names_are_declared(file, count - 1, minted);
        if let Ok(build) = edges_built(file, count - 1, minted) {
            unresolved_names_nobody(file, build.names, file.edges[count - 1].source);
            unresolved_names_nobody(file, build.names, file.edges[count - 1].target);
        }
    } else {
        nodes_use_what_they_want(file.nodes, file.nodes.len() as int, minted);
    }
}

/// A conversion uses exactly as many identifiers as the document leaves to be minted.
pub proof fn conversion_uses_what_is_wanted(file: SourceFileModel, minted: Seq<Seq<u8>>)
    ensures
        graph_from(file, minted) matches Ok((_, used)) ==> used == wanted(file).len(),
{
    edges_use_what_they_want(file, file.edges.len() as int, minted);
}

proof fn open_nodes_want(declarations: Seq<NodeDeclarationModel>, count: int)
    requires
        0 <= count <= declarations.len(),
    ensures
        wanted_by_nodes(declarations, count).len() > 0 <==> exists|i: int|
            0 <= i < count && is_unnamed((#[trigger] declarations[i]).record),
    decreases count,
{
    if count > 0 {
        open_nodes_want(declarations, count - 1);
        assert(is_unnamed(declarations[count - 1].record) ==> wanted_by_nodes(
            declarations,
            count,
        ).len() > 0);
    }
}

proof fn open_edges_want(file: SourceFileModel, count: int)
    requires
        0 <= count <= file.edges.len(),
    ensures
        wanted_by_edges(file, count).len() > 0 <==> (wanted_by_nodes(
            file.nodes,
            file.nodes.len() as int,
        ).len() > 0 || exists|i: int|
            0 <= i < count && wanted_by_edge(file, #[trigger] file.edges[i]).len() > 0),
    decreases count,
{
    if count > 0 {
        open_edges_want(file, count - 1);
        assert(wanted_by_edge(file, file.edges[count - 1]).len() > 0 ==> wanted_by_edges(
            file,
            count,
        ).len() > 0);
    }
}

/// A document wants an identifier exactly where it leaves one open.
pub proof fn open_documents_want(file: SourceFileModel)
    ensures
        leaves_open(file) <==> wanted(file).len() > 0,
{
    open_nodes_want(file.nodes, file.nodes.len() as int);
    open_edges_want(file, file.edges.len() as int);
    assert forall|i: int| 0 <= i < file.edges.len() implies (wanted_by_edge(
        file,
        #[trigger] file.edges[i],
    ).len() > 0 <==> is_unnamed(file.edges[i].record) || names_nobody(file, file.edges[i].source)
        || names_nobody(file, file.edges[i].target)) by {}
}

proof fn open_edge_leaves_open(
    file: SourceFileModel,
    at: int,
    names: Seq<(Seq<char>, LocalNodeId)>,
)
    requires
        names_are_declared(file, names),
        0 <= at < file.edges.len(),
        edge_is_open(names, file.edges[at]),
    ensures
        leaves_open(file),
{
    let edge = file.edges[at];
    unresolved_names_nobody(file, names, edge.source);
    unresolved_names_nobody(file, names, edge.target);
}

/// Turns a parsed document into a graph, minting through `minter`.
///
/// The graph is the one `graph_from` describes for the identifiers the minter issued on the
/// way, in the order they were issued. One that a record of the same kind states, or was given
/// before, is passed over.
pub fn to_graph_with(file: &SourceFile, minter: &mut Minter) -> (made: Result<
    Graph,
    ConversionError,
>)
    ensures
        exists|issued: Seq<Seq<u8>>|
            #[trigger] Minter::issued_all(*old(minter), *final(minter), issued) && match made {
                Ok(graph) => graph_from(file@, free_of(file@, issued)) matches Ok(model) && model
                    == (graph@, free_of(file@, issued).len()),
                Err(error) => (graph_from(file@, free_of(file@, issued)) matches Err(wrong)
                    && wrong == error@) || are_spent(file@, error@, issued),
            },
{
    let ghost model = file@;
    let ghost start = *minter;
    let ghost mut issued: Seq<Seq<u8>> = Seq::empty();
    proof {
        Minter::issued_none(start);
    }
    assert(Minter::issued_all(*old(minter), *minter, issued));
    assert(free_of(model, issued) =~= Seq::empty());
    if file.version.value != LANGUAGE_VERSION {
        return Err(ConversionError::UnsupportedVersion { found: file.version.value });
    }
    let links = match links(&file.links) {
        Err(error) => return Err(error),
        Ok(found) => found,
    };
    let schemas = match schemas(&file.schemas) {
        Err(error) => return Err(error),
        Ok(found) => found,
    };
    let mut taken = stated(file);
    let mut builder = Builder { nodes: Vec::new(), names: Vec::new(), edges: Vec::new() };
    proof {
        let none = builder.model(0);
        assert(none.nodes =~= Seq::empty());
        assert(none.names =~= Seq::empty());
        assert(none.edges =~= Seq::empty());
    }
    let mut at: usize = 0;
    while at < file.nodes.len()
        invariant
            at <= file.nodes@.len(),
            model == file@,
            start == *old(minter),
            model.version.value == LANGUAGE_VERSION,
            links_from(model.links, 0, Seq::empty()) matches Ok(found) && found == views(links@),
            schemas_from(model.schemas, 0, Seq::empty()) matches Ok(found) && found == views(
                schemas@,
            ),
            taken.covers(model, issued),
            Minter::issued_all(start, *minter, issued),
            nodes_built(model.nodes, at as int, free_of(model, issued)) matches Ok(build) && build
                == builder.model(free_of(model, issued).len()),
        decreases file.nodes@.len() - at,
    {
        assert(model.nodes[at as int] == file.nodes@[at as int]@);
        proof {
            nodes_use_what_they_want(model.nodes, at as int, free_of(model, issued));
            if is_unnamed(model.nodes[at as int].record) {
                node_is_next(model, at as int);
            }
        }
        let (outcome, Ghost(more)) = add_node(
            &mut builder,
            &file.nodes[at],
            minter,
            &mut taken,
            Ghost(model),
            Ghost(issued),
        );
        proof {
            nodes_built_stays(
                model.nodes,
                at as int,
                free_of(model, issued),
                free_of(model, more),
            );
            issued = more;
        }
        at = at + 1;
        match outcome {
            Err(error) => {
                proof {
                    let minted = free_of(model, issued);
                    if error@ is IdentifiersSpent && is_unnamed(model.nodes[at - 1].record) && spent(
                        model,
                        issued,
                    ) {
                        assert(are_spent(model, error@, issued));
                    } else {
                        nodes_built_fails(model.nodes, at as int, model.nodes.len() as int, minted);
                        edges_built_fails(model, 0, model.edges.len() as int, minted);
                    }
                }
                return Err(error);
            }
            Ok(_) => {}
        }
    }
    let mut at: usize = 0;
    while at < file.edges.len()
        invariant
            at <= file.edges@.len(),
            model == file@,
            start == *old(minter),
            model.version.value == LANGUAGE_VERSION,
            links_from(model.links, 0, Seq::empty()) matches Ok(found) && found == views(links@),
            schemas_from(model.schemas, 0, Seq::empty()) matches Ok(found) && found == views(
                schemas@,
            ),
            taken.covers(model, issued),
            Minter::issued_all(start, *minter, issued),
            edges_built(model, at as int, free_of(model, issued)) matches Ok(build) && build
                == builder.model(free_of(model, issued).len()),
        decreases file.edges@.len() - at,
    {
        assert(model.edges[at as int] == file.edges@[at as int]@);
        let ghost kept = builder.model(0);
        proof {
            built_names_are_declared(model, at as int, free_of(model, issued));
            edges_use_what_they_want(model, at as int, free_of(model, issued));
            edge_is_next(model, at as int);
        }
        let (outcome, Ghost(more)) = add_edge(
            &mut builder,
            &file.edges[at],
            minter,
            &mut taken,
            Ghost(model),
            Ghost(issued),
        );
        proof {
            edges_built_stays(model, at as int, free_of(model, issued), free_of(model, more));
            issued = more;
        }
        at = at + 1;
        match outcome {
            Err(error) => {
                proof {
                    let minted = free_of(model, issued);
                    let names = kept.names;
                    let edge = model.edges[at - 1];
                    if error@ is IdentifiersSpent && edge_is_open(names, edge) && spent(model, issued) {
                        open_edge_leaves_open(model, at - 1, names);
                        assert(are_spent(model, error@, issued));
                    } else {
                        edges_built_fails(model, at as int, model.edges.len() as int, minted);
                    }
                }
                return Err(error);
            }
            Ok(_) => {}
        }
    }
    let graph = Graph {
        nodes: sort(builder.nodes),
        edges: sort(builder.edges),
        links: sort(links),
        schemas: sort(schemas),
    };
    assert(graph_from(model, free_of(model, issued)) matches Ok(found) && found == (
        graph@,
        free_of(model, issued).len(),
    ));
    Ok(graph)
}

/// Turns a parsed document into a graph.
///
/// A declaration that states no `id` receives a minted one, so converting the same document
/// twice produces graphs that differ only in those identifiers. Writing the result back out
/// records them, and every later round trip carries them.
///
/// An endpoint naming no declaration in this document becomes a Placeholder node.
pub fn to_graph(file: &SourceFile) -> (made: Result<Graph, ConversionError>)
    ensures
        exists|issued: Seq<Seq<u8>>|
            (forall|i: int|
                0 <= i < issued.len() ==> crate::id::version_seven(#[trigger] issued[i]))
                && match made {
                Ok(graph) => graph_from(file@, #[trigger] free_of(file@, issued)) matches Ok(model)
                    && model == (graph@, free_of(file@, issued).len()),
                Err(error) => (graph_from(file@, free_of(file@, issued)) matches Err(wrong)
                    && wrong == error@) || are_spent(file@, error@, issued),
            },
{
    let mut minter = Minter::new();
    to_graph_with(file, &mut minter)
}

} // verus!
