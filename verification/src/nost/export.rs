//! The document of a graph.
//!
//! Export regenerates what is local to a file: a declaration is named after its record's
//! identifier, and every label that a schema declares is written as a schema name.

use super::convert::generated_name;
use super::convert::name_of;
use super::convert::write_hex;
use super::convert::hex_of;
use super::list_model;
use super::unplaced;
use super::Comment;
use super::CommentModel;
use super::Comments;
use super::CommentsModel;
use super::ContributionBlock;
use super::ContributionBlockModel;
use super::DeclarationRef;
use super::EdgeDeclaration;
use super::EdgeDeclarationModel;
use super::Endpoint;
use super::EndpointModel;
use super::EvidenceBlock;
use super::EvidenceBlockModel;
use super::EvidenceField;
use super::EvidenceFieldModel;
use super::EvidenceValue;
use super::EvidenceValueModel;
use super::LinkDeclaration;
use super::LinkDeclarationModel;
use super::NodeDeclaration;
use super::NodeDeclarationModel;
use super::OwnerDeclaration;
use super::OwnerDeclarationModel;
use super::Property;
use super::RecordBody;
use super::RecordBodyModel;
use super::SchemaDeclaration;
use super::SchemaDeclarationModel;
use super::SourceFile;
use super::SourceFileModel;
use super::Spanned;
use super::Value;
use super::ValueModel;
use super::LANGUAGE_VERSION;
use crate::contribution::Contribution;
use crate::contribution::ContributionModel;
use crate::contribution::Owner;
use crate::contribution::OwnerModel;
use crate::evidence::widened_score;
use crate::evidence::Confidence;
use crate::evidence::Evidence;
use crate::evidence::EvidenceMethod;
use crate::evidence::EvidenceModel;
use crate::evidence::SourcePosition;
use crate::evidence::SourceRange;
use crate::graph::pairs;
use crate::graph::Edge;
use crate::graph::EdgeModel;
use crate::graph::Graph;
use crate::graph::GraphModel;
use crate::graph::Node;
use crate::graph::NodeModel;
use crate::graph::NodeReference;
use crate::graph::ReferenceModel;
use crate::id::SourceUnitId;
use crate::link::Link;
use crate::link::LinkModel;
use crate::name::Label;
use crate::name::PropertyKey;
use crate::number::digits_of;
use crate::number::show_signed;
use crate::number::shown;
use crate::number::write_digits;
use crate::property::copy_bytes;
use crate::property::PropertyModel;
use crate::property::PropertyScalar;
use crate::property::PropertyValue;
use crate::property::ScalarModel;
use crate::schema::EndpointConstraintModel;
use crate::schema::Schema;
use crate::schema::SchemaFieldModel;
use crate::schema::SchemaModel;
use crate::shortest::show_double;
use crate::shortest::shown_double;
use crate::text::same;
use crate::text::view_of;
use crate::text::views;
use crate::text::views_push;
use vstd::prelude::*;
use vstd::string::StringExecFns;

verus! {

// -- Values ------------------------------------------------------------------------

/// How a scalar is written.
pub open spec fn written_scalar(scalar: ScalarModel) -> ValueModel {
    match scalar {
        ScalarModel::Boolean(flag) => ValueModel::Boolean(flag),
        ScalarModel::Integer(number) => ValueModel::Integer(shown(number as int)),
        ScalarModel::Float(bits) => ValueModel::Float(shown_double(bits)),
        ScalarModel::String(text) => ValueModel::String(text),
        ScalarModel::Bytes(bytes) => ValueModel::Bytes { decoded: bytes, digits: hex_of(bytes) },
        ScalarModel::DateTime(text) => ValueModel::DateTime(text),
    }
}

/// How a property value is written.
pub open spec fn written_value(value: PropertyModel) -> ValueModel {
    match value {
        PropertyModel::Scalar(scalar) => written_scalar(scalar),
        PropertyModel::List(items) => ValueModel::List(
            Seq::new(items.len(), |i: int| unplaced(written_scalar(items[i]))),
        ),
    }
}

/// A property that was written nowhere.
pub open spec fn written_property(key: Seq<char>, value: ValueModel) -> super::PropertyModel {
    super::PropertyModel {
        key: unplaced(key),
        value: unplaced(value),
        comments: CommentsModel::none(),
    }
}

fn spanned_text(text: &str) -> (made: Spanned<String>)
    ensures
        made@ == unplaced(text@),
{
    Spanned { value: text.to_owned(), range: SourceRange::origin() }
}

fn no_comments() -> (none: Vec<Comment>)
    ensures
        views(none@) == Seq::<CommentModel>::empty(),
{
    let none: Vec<Comment> = Vec::new();
    assert(views(none@) =~= Seq::<CommentModel>::empty());
    none
}

fn value_of_bytes(bytes: &Vec<u8>) -> (value: Value)
    ensures
        value@ == (ValueModel::Bytes { decoded: bytes@, digits: hex_of(bytes@) }),
{
    let mut digits = String::new();
    write_hex(&mut digits, bytes.as_slice());
    assert(digits@ =~= hex_of(bytes@));
    Value::Bytes { decoded: copy_bytes(bytes), digits }
}

fn value_of_scalar(scalar: &PropertyScalar) -> (value: Value)
    ensures
        value@ == written_scalar(scalar@),
{
    match scalar {
        PropertyScalar::Boolean(flag) => Value::Boolean(*flag),
        PropertyScalar::Integer(number) => Value::Integer(show_signed(*number)),
        PropertyScalar::Float(number) => Value::Float(show_double(number.get())),
        PropertyScalar::String(text) => Value::String(text.clone()),
        PropertyScalar::Bytes(bytes) => value_of_bytes(bytes),
        PropertyScalar::DateTime(moment) => Value::DateTime(moment.as_str().to_owned()),
    }
}

fn value_of_list(items: &Vec<PropertyScalar>) -> (value: Value)
    ensures
        value@ == written_value(PropertyModel::List(views(items@))),
{
    let ghost models = views(items@);
    let ghost all = Seq::new(models.len(), |i: int| unplaced(written_scalar(models[i])));
    let mut list: Vec<Spanned<Value>> = Vec::new();
    let mut at: usize = 0;
    while at < items.len()
        invariant
            at <= items@.len(),
            models == views(items@),
            all == Seq::new(models.len(), |i: int| unplaced(written_scalar(models[i]))),
            views(list@) =~= all.take(at as int),
        decreases items@.len() - at,
    {
        assert(models[at as int] == items@[at as int]@);
        let value = Spanned { value: value_of_scalar(&items[at]), range: SourceRange::origin() };
        proof {
            views_push(list@, value);
        }
        list.push(value);
        at = at + 1;
    }
    proof {
        assert(all.take(all.len() as int) =~= all);
        list_model(list@);
    }
    Value::List(list)
}

fn value_of(value: &PropertyValue) -> (made: Value)
    ensures
        made@ == written_value(value@),
{
    match value {
        PropertyValue::Boolean(flag) => Value::Boolean(*flag),
        PropertyValue::Integer(number) => Value::Integer(show_signed(*number)),
        PropertyValue::Float(number) => Value::Float(show_double(number.get())),
        PropertyValue::String(text) => Value::String(text.clone()),
        PropertyValue::Bytes(bytes) => value_of_bytes(bytes),
        PropertyValue::DateTime(moment) => Value::DateTime(moment.as_str().to_owned()),
        PropertyValue::List(items) => value_of_list(items),
    }
}

fn property(key: &str, value: Value) -> (made: Property)
    ensures
        made@ == written_property(key@, value@),
{
    Property {
        key: spanned_text(key),
        value: Spanned { value, range: SourceRange::origin() },
        comments: Comments::default(),
    }
}

// -- Evidence ----------------------------------------------------------------------

/// How a position is written.
pub open spec fn written_position(position: SourcePosition) -> Seq<char> {
    digits_of(position.line as nat) + ":"@ + digits_of(position.column as nat) + ":"@ + digits_of(
        position.offset as nat,
    )
}

/// How a range is written.
pub open spec fn written_range(range: SourceRange) -> Seq<char> {
    written_position(range.from()) + "-"@ + written_position(range.to())
}

/// An evidence field that was written nowhere.
pub open spec fn written_field(key: Seq<char>, value: EvidenceValueModel) -> EvidenceFieldModel {
    EvidenceFieldModel {
        key: unplaced(key),
        value: unplaced(value),
        comments: CommentsModel::none(),
    }
}

/// A field that holds a text.
pub open spec fn text_field(key: Seq<char>, text: Seq<char>) -> EvidenceFieldModel {
    written_field(key, EvidenceValueModel::Text(text))
}

/// A field that holds a text, where there is one.
pub open spec fn optional_field(key: Seq<char>, text: Option<Seq<char>>) -> Seq<
    EvidenceFieldModel,
> {
    match text {
        None => Seq::empty(),
        Some(found) => seq![text_field(key, found)],
    }
}

/// How a method is written.
pub open spec fn written_method(method: EvidenceMethod) -> EvidenceValueModel {
    EvidenceValueModel::Enumerator {
        name: match method {
            EvidenceMethod::Deterministic => "deterministic"@,
            EvidenceMethod::AiInferred => "ai_inferred"@,
            EvidenceMethod::UserDeclared => "user_declared"@,
        },
        score: None,
    }
}

/// How a confidence is written.
pub open spec fn written_confidence(confidence: Confidence) -> EvidenceValueModel {
    match confidence {
        Confidence::Extracted => EvidenceValueModel::Enumerator {
            name: "extracted"@,
            score: None,
        },
        Confidence::Inferred { score } => EvidenceValueModel::Enumerator {
            name: "inferred"@,
            score: Some(shown_double(widened_score(score@))),
        },
        Confidence::Ambiguous { score } => EvidenceValueModel::Enumerator {
            name: "ambiguous"@,
            score: Some(shown_double(widened_score(score@))),
        },
    }
}

/// The text of an optional range.
pub open spec fn range_text(range: Option<SourceRange>) -> Option<Seq<char>> {
    match range {
        None => None,
        Some(found) => Some(written_range(found)),
    }
}

/// The fields that name the producer, which are left out where the owner supplies them.
pub open spec fn producer_fields(
    entry: EvidenceModel,
    inherited: Option<(Seq<char>, Seq<char>)>,
) -> Seq<EvidenceFieldModel> {
    if inherited == Some((entry.producer, entry.producer_version)) {
        Seq::empty()
    } else {
        seq![
            text_field("producer"@, entry.producer),
            text_field("producer_version"@, entry.producer_version),
        ]
    }
}

/// The fields of an evidence block.
pub open spec fn written_fields(
    entry: EvidenceModel,
    inherited: Option<(Seq<char>, Seq<char>)>,
) -> Seq<EvidenceFieldModel> {
    Seq::empty().push(text_field("source"@, entry.source)) + optional_field(
        "revision"@,
        entry.resolved_revision,
    ) + optional_field("path"@, entry.path) + seq![text_field("digest"@, entry.content_digest)]
        + optional_field("range"@, range_text(entry.range)) + producer_fields(entry, inherited)
        + seq![written_field("method"@, written_method(entry.method))] + seq![
        written_field("confidence"@, written_confidence(entry.confidence)),
    ]
}

/// How a piece of evidence is written.
pub open spec fn written_evidence(
    entry: EvidenceModel,
    inherited: Option<(Seq<char>, Seq<char>)>,
) -> EvidenceBlockModel {
    EvidenceBlockModel {
        fields: written_fields(entry, inherited),
        range: SourceRange::at_origin(),
        comments: CommentsModel::none(),
        block_comments: Seq::empty(),
    }
}

fn render_position(position: SourcePosition) -> (text: String)
    ensures
        text@ == written_position(position),
{
    let mut text = String::new();
    write_digits(&mut text, position.line as u64);
    assert(text@ =~= digits_of(position.line as nat));
    text.append(":");
    write_digits(&mut text, position.column as u64);
    text.append(":");
    write_digits(&mut text, position.offset);
    text
}

fn render_range(range: SourceRange) -> (text: String)
    ensures
        text@ == written_range(range),
{
    let mut text = render_position(range.start());
    text.append("-");
    text.append(render_position(range.end()).as_str());
    text
}

fn evidence_field(key: &str, value: EvidenceValue) -> (field: EvidenceField)
    ensures
        field@ == written_field(key@, value@),
{
    EvidenceField {
        key: spanned_text(key),
        value: Spanned { value, range: SourceRange::origin() },
        comments: Comments::default(),
    }
}

fn push_field(fields: &mut Vec<EvidenceField>, key: &str, value: EvidenceValue)
    ensures
        views(final(fields)@) == views(old(fields)@) + seq![written_field(key@, value@)],
{
    let field = evidence_field(key, value);
    proof {
        views_push(fields@, field);
    }
    fields.push(field);
    assert(views(fields@) =~= views(old(fields)@) + seq![written_field(key@, value@)]);
}

fn push_optional(fields: &mut Vec<EvidenceField>, key: &str, text: Option<&str>)
    ensures
        views(final(fields)@) == views(old(fields)@) + optional_field(
            key@,
            match text {
                Some(found) => Some(found@),
                None => None,
            },
        ),
{
    match text {
        Some(found) => {
            push_field(fields, key, EvidenceValue::Text(found.to_owned()));
        }
        None => {
            assert(views(fields@) =~= views(fields@) + Seq::<EvidenceFieldModel>::empty());
        }
    }
}

fn method_value(method: EvidenceMethod) -> (value: EvidenceValue)
    ensures
        value@ == written_method(method),
{
    let name = match method {
        EvidenceMethod::Deterministic => "deterministic",
        EvidenceMethod::AiInferred => "ai_inferred",
        EvidenceMethod::UserDeclared => "user_declared",
    };
    EvidenceValue::Enumerator { name: name.to_owned(), score: None }
}

fn confidence_value(confidence: Confidence) -> (value: EvidenceValue)
    ensures
        value@ == written_confidence(confidence),
{
    match confidence {
        Confidence::Extracted => EvidenceValue::Enumerator {
            name: "extracted".to_owned(),
            score: None,
        },
        Confidence::Inferred { score } => EvidenceValue::Enumerator {
            name: "inferred".to_owned(),
            score: Some(show_double(score.wide())),
        },
        Confidence::Ambiguous { score } => EvidenceValue::Enumerator {
            name: "ambiguous".to_owned(),
            score: Some(show_double(score.wide())),
        },
    }
}

fn evidence_block(entry: &Evidence, inherited: Option<(&str, &str)>) -> (block: EvidenceBlock)
    ensures
        block@ == written_evidence(entry@, super::convert::inherited_model(inherited)),
{
    let ghost model = entry@;
    let mut fields: Vec<EvidenceField> = Vec::new();
    push_field(&mut fields, "source", EvidenceValue::Text(entry.source.as_str().to_owned()));
    assert(views(fields@) =~= Seq::empty().push(text_field("source"@, model.source)));
    let revision = match &entry.resolved_revision {
        Some(found) => Some(found.as_str()),
        None => None,
    };
    push_optional(&mut fields, "revision", revision);
    let path = match &entry.path {
        Some(found) => Some(found.as_str()),
        None => None,
    };
    push_optional(&mut fields, "path", path);
    push_field(
        &mut fields,
        "digest",
        EvidenceValue::Text(entry.content_digest.as_str().to_owned()),
    );
    match entry.range {
        Some(range) => {
            push_field(&mut fields, "range", EvidenceValue::Text(render_range(range)));
        }
        None => {
            assert(views(fields@) =~= views(fields@) + Seq::<EvidenceFieldModel>::empty());
        }
    }
    let redundant = match inherited {
        Some((name, version)) => same(name, entry.producer.as_str()) && same(
            version,
            entry.producer_version.as_str(),
        ),
        None => false,
    };
    let ghost before = views(fields@);
    if !redundant {
        push_field(&mut fields, "producer", EvidenceValue::Text(entry.producer.as_str().to_owned()));
        push_field(
            &mut fields,
            "producer_version",
            EvidenceValue::Text(entry.producer_version.as_str().to_owned()),
        );
    }
    assert(views(fields@) =~= before + producer_fields(
        model,
        super::convert::inherited_model(inherited),
    ));
    push_field(&mut fields, "method", method_value(entry.method));
    push_field(&mut fields, "confidence", confidence_value(entry.confidence));
    EvidenceBlock {
        fields,
        range: SourceRange::origin(),
        comments: Comments::default(),
        block_comments: no_comments(),
    }
}

// -- Contributions -----------------------------------------------------------------

/// How an owner is written.
pub open spec fn written_owner(owner: OwnerModel) -> OwnerDeclarationModel {
    match owner {
        OwnerModel::Analyzer { name, version } => OwnerDeclarationModel::Analyzer {
            name: unplaced(name),
            version: unplaced(version),
        },
        OwnerModel::AiAnalysis { contract_digest } => OwnerDeclarationModel::Ai {
            contract_digest: unplaced(contract_digest),
        },
        OwnerModel::User => OwnerDeclarationModel::User { range: SourceRange::at_origin() },
        OwnerModel::Named { name } => OwnerDeclarationModel::Named { name: unplaced(name) },
    }
}

/// What an owner supplies to its evidence.
pub open spec fn owner_supplies(owner: OwnerModel) -> Option<(Seq<char>, Seq<char>)> {
    match owner {
        OwnerModel::Analyzer { name, version } => Some((name, version)),
        _ => None,
    }
}

/// How a source unit is written: the query unit is what a contribution with no stated unit
/// reads back as, so it is left out.
pub open spec fn written_unit(unit: SourceUnitId) -> Option<Spanned<Seq<char>>> {
    if unit.is_query() {
        None
    } else {
        Some(unplaced(unit.text()))
    }
}

/// How a contribution is written.
pub open spec fn written_contribution(entry: ContributionModel) -> ContributionBlockModel {
    ContributionBlockModel {
        owner: written_owner(entry.owner),
        unit: written_unit(entry.source_unit),
        evidence: Seq::new(
            entry.evidence.len(),
            |i: int| written_evidence(entry.evidence[i], owner_supplies(entry.owner)),
        ),
        comments: CommentsModel::none(),
        block_comments: Seq::empty(),
    }
}

fn owner_declaration(owner: &Owner) -> (made: OwnerDeclaration)
    ensures
        made@ == written_owner(owner@),
{
    match owner {
        Owner::Analyzer { name, version } => OwnerDeclaration::Analyzer {
            name: spanned_text(name.as_str()),
            version: spanned_text(version.as_str()),
        },
        Owner::AiAnalysis { contract_digest } => OwnerDeclaration::Ai {
            contract_digest: spanned_text(contract_digest.as_str()),
        },
        Owner::User => OwnerDeclaration::User { range: SourceRange::origin() },
        Owner::Named { name } => OwnerDeclaration::Named { name: spanned_text(name.as_str()) },
    }
}

fn unit_text(unit: SourceUnitId) -> (made: Option<Spanned<String>>)
    ensures
        view_of(made) == written_unit(unit),
{
    let query = SourceUnitId::query();
    if unit.same(&query) {
        proof {
            SourceUnitId::same_bytes(unit, query);
        }
        None
    } else {
        proof {
            if unit.is_query() {
                SourceUnitId::one_query_unit(unit, query);
            }
        }
        Some(spanned_text(unit.to_string().as_str()))
    }
}

fn contribution_block(entry: &Contribution) -> (block: ContributionBlock)
    ensures
        block@ == written_contribution(entry@),
{
    let inherited = match &entry.owner {
        Owner::Analyzer { name, version } => Some((name.as_str(), version.as_str())),
        _ => None,
    };
    let ghost given = owner_supplies(entry@.owner);
    let ghost models = entry@.evidence;
    let ghost all = Seq::new(models.len(), |i: int| written_evidence(models[i], given));
    assert(super::convert::inherited_model(inherited) == given);
    let mut evidence: Vec<EvidenceBlock> = Vec::new();
    let mut at: usize = 0;
    while at < entry.evidence.len()
        invariant
            at <= entry.evidence@.len(),
            models == entry@.evidence,
            super::convert::inherited_model(inherited) == given,
            all == Seq::new(models.len(), |i: int| written_evidence(models[i], given)),
            views(evidence@) =~= all.take(at as int),
        decreases entry.evidence@.len() - at,
    {
        assert(models[at as int] == entry.evidence@[at as int]@);
        let block = evidence_block(&entry.evidence[at], inherited);
        proof {
            views_push(evidence@, block);
        }
        evidence.push(block);
        at = at + 1;
    }
    proof {
        assert(all.take(all.len() as int) =~= all);
        assert(all =~= written_contribution(entry@).evidence);
    }
    ContributionBlock {
        owner: owner_declaration(&entry.owner),
        unit: unit_text(entry.source_unit),
        evidence,
        comments: Comments::default(),
        block_comments: no_comments(),
    }
}

// -- Records -----------------------------------------------------------------------

/// The property that holds extra labels, where there are any.
pub open spec fn labels_property(extra: Seq<Seq<char>>) -> Seq<super::PropertyModel> {
    if extra.len() == 0 {
        Seq::empty()
    } else {
        seq![
            written_property(
                "labels"@,
                ValueModel::List(
                    Seq::new(extra.len(), |i: int| unplaced(ValueModel::String(extra[i]))),
                ),
            ),
        ]
    }
}

/// The ordinary properties of a record.
pub open spec fn ordinary_properties(properties: Seq<(Seq<char>, PropertyModel)>) -> Seq<
    super::PropertyModel,
> {
    Seq::new(
        properties.len(),
        |i: int| written_property(properties[i].0, written_value(properties[i].1)),
    )
}

/// The blocks of a record's contributions.
pub open spec fn written_contributions(entries: Seq<ContributionModel>) -> Seq<
    ContributionBlockModel,
> {
    Seq::new(entries.len(), |i: int| written_contribution(entries[i]))
}

/// The body of a record.
pub open spec fn written_record(
    id: Seq<char>,
    properties: Seq<(Seq<char>, PropertyModel)>,
    extra: Seq<Seq<char>>,
    contributions: Seq<ContributionModel>,
) -> RecordBodyModel {
    RecordBodyModel {
        properties: seq![written_property("id"@, ValueModel::String(id))] + labels_property(extra)
            + ordinary_properties(properties),
        contributions: written_contributions(contributions),
        comments: CommentsModel::none(),
        block_comments: Seq::empty(),
    }
}

fn push_labels(written: &mut Vec<Property>, extra: &Vec<String>)
    ensures
        views(final(written)@) == views(old(written)@) + labels_property(views(extra@)),
{
    let ghost models = views(extra@);
    let ghost all = Seq::new(models.len(), |i: int| unplaced(ValueModel::String(models[i])));
    if extra.len() == 0 {
        assert(views(written@) =~= views(written@) + labels_property(models));
        return;
    }
    let mut list: Vec<Spanned<Value>> = Vec::new();
    let mut at: usize = 0;
    while at < extra.len()
        invariant
            at <= extra@.len(),
            models == views(extra@),
            all == Seq::new(models.len(), |i: int| unplaced(ValueModel::String(models[i]))),
            views(list@) =~= all.take(at as int),
        decreases extra@.len() - at,
    {
        assert(models[at as int] == extra@[at as int]@);
        let value = Spanned {
            value: Value::String(extra[at].clone()),
            range: SourceRange::origin(),
        };
        proof {
            views_push(list@, value);
        }
        list.push(value);
        at = at + 1;
    }
    proof {
        assert(all.take(all.len() as int) =~= all);
        list_model(list@);
    }
    let labels = property("labels", Value::List(list));
    proof {
        views_push(written@, labels);
    }
    written.push(labels);
    assert(views(written@) =~= views(old(written)@) + labels_property(models));
}

fn push_properties(written: &mut Vec<Property>, properties: &Vec<(PropertyKey, PropertyValue)>)
    ensures
        views(final(written)@) == views(old(written)@) + ordinary_properties(pairs(properties@)),
{
    let ghost models = pairs(properties@);
    let ghost all = ordinary_properties(models);
    let ghost first = views(written@);
    let mut at: usize = 0;
    assert(views(written@) =~= first + all.take(0));
    while at < properties.len()
        invariant
            at <= properties@.len(),
            models == pairs(properties@),
            all == ordinary_properties(models),
            first == views(old(written)@),
            views(written@) == first + all.take(at as int),
        decreases properties@.len() - at,
    {
        assert(models[at as int] == (properties@[at as int].0@, properties@[at as int].1@));
        let made = property(properties[at].0.as_str(), value_of(&properties[at].1));
        proof {
            views_push(written@, made);
        }
        written.push(made);
        at = at + 1;
        assert(views(written@) =~= first + all.take(at as int));
    }
    assert(all.take(all.len() as int) =~= all);
}

fn record_body(
    id: String,
    properties: &Vec<(PropertyKey, PropertyValue)>,
    extra: &Vec<String>,
    contributions: &Vec<Contribution>,
) -> (body: RecordBody)
    ensures
        body@ == written_record(
            id@,
            pairs(properties@),
            views(extra@),
            views(contributions@),
        ),
{
    let ghost text = id@;
    let mut written: Vec<Property> = Vec::new();
    written.push(property("id", Value::String(id)));
    assert(views(written@) =~= seq![written_property("id"@, ValueModel::String(text))]);
    push_labels(&mut written, extra);
    push_properties(&mut written, properties);
    let ghost models = views(contributions@);
    let ghost all = written_contributions(models);
    let mut blocks: Vec<ContributionBlock> = Vec::new();
    let mut at: usize = 0;
    while at < contributions.len()
        invariant
            at <= contributions@.len(),
            models == views(contributions@),
            all == written_contributions(models),
            views(blocks@) =~= all.take(at as int),
        decreases contributions@.len() - at,
    {
        assert(models[at as int] == contributions@[at as int]@);
        let block = contribution_block(&contributions[at]);
        proof {
            views_push(blocks@, block);
        }
        blocks.push(block);
        at = at + 1;
    }
    assert(all.take(all.len() as int) =~= all);
    RecordBody {
        properties: written,
        contributions: blocks,
        comments: Comments::default(),
        block_comments: no_comments(),
    }
}

// -- Labels ------------------------------------------------------------------------

/// Those of the first `count` labels that are, or are not, among the given ones.
pub open spec fn chosen(
    labels: Seq<Seq<char>>,
    count: int,
    among: Seq<Seq<char>>,
    wanted: bool,
) -> Seq<Seq<char>>
    decreases count,
{
    if count <= 0 {
        Seq::empty()
    } else if among.contains(labels[count - 1]) == wanted {
        chosen(labels, count - 1, among, wanted).push(labels[count - 1])
    } else {
        chosen(labels, count - 1, among, wanted)
    }
}

/// The labels written as schema names: those a schema declares, or the first where none is.
pub open spec fn named_part(labels: Seq<Seq<char>>, declared: Seq<Seq<char>>) -> Seq<Seq<char>> {
    let found = chosen(labels, labels.len() as int, declared, true);
    if found.len() == 0 && labels.len() > 0 {
        seq![labels[0]]
    } else {
        found
    }
}

/// The labels written in the reserved property: the rest.
pub open spec fn extra_part(labels: Seq<Seq<char>>, declared: Seq<Seq<char>>) -> Seq<Seq<char>> {
    chosen(labels, labels.len() as int, named_part(labels, declared), false)
}

/// The names of the schemas a graph declares.
pub open spec fn declared_names(schemas: Seq<SchemaModel>) -> Seq<Seq<char>> {
    Seq::new(schemas.len(), |i: int| schemas[i].name)
}

fn is_among(texts: &Vec<String>, wanted: &str) -> (answer: bool)
    ensures
        answer == views(texts@).contains(wanted@),
{
    let ghost models = views(texts@);
    let mut at: usize = 0;
    while at < texts.len()
        invariant
            at <= texts@.len(),
            models == views(texts@),
            forall|i: int| 0 <= i < at ==> #[trigger] models[i] != wanted@,
        decreases texts@.len() - at,
    {
        assert(models[at as int] == texts@[at as int]@);
        if same(texts[at].as_str(), wanted) {
            return true;
        }
        at = at + 1;
    }
    false
}

fn choose_labels(labels: &Vec<Label>, among: &Vec<String>, wanted: bool) -> (found: Vec<String>)
    ensures
        views(found@) == chosen(views(labels@), labels@.len() as int, views(among@), wanted),
{
    let ghost models = views(labels@);
    let mut found: Vec<String> = Vec::new();
    assert(views(found@) =~= Seq::<Seq<char>>::empty());
    let mut at: usize = 0;
    while at < labels.len()
        invariant
            at <= labels@.len(),
            models == views(labels@),
            views(found@) == chosen(models, at as int, views(among@), wanted),
        decreases labels@.len() - at,
    {
        assert(models[at as int] == labels@[at as int]@);
        let text = labels[at].as_str();
        if is_among(among, text) == wanted {
            let label = text.to_owned();
            proof {
                views_push(found@, label);
            }
            found.push(label);
        }
        at = at + 1;
    }
    found
}

fn split_labels(labels: &Vec<Label>, declared: &Vec<String>) -> (split: (Vec<String>, Vec<String>))
    ensures
        views(split.0@) == named_part(views(labels@), views(declared@)),
        views(split.1@) == extra_part(views(labels@), views(declared@)),
{
    let mut named = choose_labels(labels, declared, true);
    if named.len() == 0 && labels.len() > 0 {
        named.push(labels[0].as_str().to_owned());
        assert(views(named@) =~= seq![views(labels@)[0]]);
    }
    let extra = choose_labels(labels, &named, false);
    (named, extra)
}

// -- Declarations ------------------------------------------------------------------

/// How a link is written.
pub open spec fn written_link(link: LinkModel) -> LinkDeclarationModel {
    LinkDeclarationModel {
        source: unplaced(link.source),
        alias: match link.alias {
            None => None,
            Some(alias) => Some(unplaced(alias)),
        },
        comments: CommentsModel::none(),
    }
}

/// How a schema field is written.
pub open spec fn written_schema_field(field: SchemaFieldModel) -> super::SchemaFieldModel {
    super::SchemaFieldModel {
        key: unplaced(field.key),
        optional: !field.required,
        field_type: unplaced(field.field_type),
        comments: CommentsModel::none(),
    }
}

/// How an endpoint constraint is written.
pub open spec fn written_constraint(constraint: Option<EndpointConstraintModel>) -> Option<
    super::EndpointConstraintModel,
> {
    match constraint {
        None => None,
        Some(names) => Some(
            super::EndpointConstraintModel {
                source: unplaced(names.source),
                target: unplaced(names.target),
            },
        ),
    }
}

/// How a schema is written.
pub open spec fn written_schema(schema: SchemaModel) -> SchemaDeclarationModel {
    SchemaDeclarationModel {
        name: unplaced(schema.name),
        endpoints: written_constraint(schema.endpoints),
        fields: Seq::new(schema.fields.len(), |i: int| written_schema_field(schema.fields[i])),
        comments: CommentsModel::none(),
        block_comments: Seq::empty(),
    }
}

/// Texts that were written nowhere.
pub open spec fn unplaced_all(texts: Seq<Seq<char>>) -> Seq<Spanned<Seq<char>>> {
    Seq::new(texts.len(), |i: int| unplaced(texts[i]))
}

/// How a node is written.
pub open spec fn written_node(node: NodeModel, declared: Seq<Seq<char>>) -> NodeDeclarationModel {
    NodeDeclarationModel {
        name: unplaced(name_of(node.id)),
        schemas: unplaced_all(named_part(node.labels, declared)),
        record: written_record(
            node.id.text(),
            node.properties,
            extra_part(node.labels, declared),
            node.contributions,
        ),
    }
}

/// The first link to a source, from `at` on.
pub open spec fn find_link(links: Seq<LinkModel>, source: Seq<char>, at: int) -> Option<int>
    decreases links.len() - at,
{
    if at < 0 || at >= links.len() {
        None
    } else if links[at].source == source {
        Some(at)
    } else {
        find_link(links, source, at + 1)
    }
}

/// How an endpoint is written.
pub open spec fn written_endpoint(reference: ReferenceModel, links: Seq<LinkModel>) -> EndpointModel {
    match reference {
        ReferenceModel::Local(id) => EndpointModel::Local(unplaced(name_of(id))),
        ReferenceModel::External(scoped) => {
            let name = unplaced(name_of(scoped.local));
            let alias = match find_link(links, scoped.source, 0) {
                Some(at) => links[at].alias,
                None => None,
            };
            match alias {
                Some(found) => EndpointModel::Aliased { alias: unplaced(found), name },
                None => EndpointModel::Locator { locator: unplaced(scoped.source), name },
            }
        },
    }
}

/// How an edge is written.
pub open spec fn written_edge(edge: EdgeModel, links: Seq<LinkModel>) -> EdgeDeclarationModel {
    EdgeDeclarationModel {
        source: written_endpoint(edge.source, links),
        target: written_endpoint(edge.target, links),
        relation: unplaced(edge.relation),
        record: written_record(
            edge.id.text(),
            edge.properties,
            Seq::empty(),
            edge.contributions,
        ),
    }
}

/// The order of the declarations: schemas, nodes, edges.
pub open spec fn written_order(schemas: nat, nodes: nat, edges: nat) -> Seq<DeclarationRef> {
    Seq::new(
        schemas + nodes + edges,
        |i: int|
            if i < schemas {
                DeclarationRef::Schema(i as usize)
            } else if i < schemas + nodes {
                DeclarationRef::Node((i - schemas) as usize)
            } else {
                DeclarationRef::Edge((i - schemas - nodes) as usize)
            },
    )
}

/// The document of a graph.
pub open spec fn document_of(graph: GraphModel) -> SourceFileModel {
    SourceFileModel {
        version: unplaced(LANGUAGE_VERSION),
        version_comments: CommentsModel::none(),
        links: Seq::new(graph.links.len(), |i: int| written_link(graph.links[i])),
        schemas: Seq::new(graph.schemas.len(), |i: int| written_schema(graph.schemas[i])),
        nodes: Seq::new(
            graph.nodes.len(),
            |i: int| written_node(graph.nodes[i], declared_names(graph.schemas)),
        ),
        edges: Seq::new(graph.edges.len(), |i: int| written_edge(graph.edges[i], graph.links)),
        order: written_order(graph.schemas.len(), graph.nodes.len(), graph.edges.len()),
        trailing_comments: Seq::empty(),
    }
}

fn link_declaration(link: &Link) -> (made: LinkDeclaration)
    ensures
        made@ == written_link(link@),
{
    LinkDeclaration {
        source: spanned_text(link.source.as_str()),
        alias: match &link.alias {
            None => None,
            Some(alias) => Some(spanned_text(alias.as_str())),
        },
        comments: Comments::default(),
    }
}

fn schema_declaration(schema: &Schema) -> (made: SchemaDeclaration)
    ensures
        made@ == written_schema(schema@),
{
    let ghost models = schema@.fields;
    let ghost all = Seq::new(models.len(), |i: int| written_schema_field(models[i]));
    let mut fields: Vec<super::SchemaField> = Vec::new();
    let mut at: usize = 0;
    while at < schema.fields.len()
        invariant
            at <= schema.fields@.len(),
            models == schema@.fields,
            all == Seq::new(models.len(), |i: int| written_schema_field(models[i])),
            views(fields@) =~= all.take(at as int),
        decreases schema.fields@.len() - at,
    {
        let field = &schema.fields[at];
        assert(models[at as int] == field@);
        let made = super::SchemaField {
            key: spanned_text(field.key.as_str()),
            optional: !field.required,
            field_type: Spanned { value: field.field_type, range: SourceRange::origin() },
            comments: Comments::default(),
        };
        proof {
            views_push(fields@, made);
        }
        fields.push(made);
        at = at + 1;
    }
    proof {
        assert(all.take(all.len() as int) =~= all);
        assert(all =~= written_schema(schema@).fields);
    }
    SchemaDeclaration {
        name: spanned_text(schema.name.as_str()),
        endpoints: match &schema.endpoints {
            None => None,
            Some(names) => Some(
                super::EndpointConstraint {
                    source: spanned_text(names.source.as_str()),
                    target: spanned_text(names.target.as_str()),
                },
            ),
        },
        fields,
        comments: Comments::default(),
        block_comments: no_comments(),
    }
}

fn spanned_all(texts: &Vec<String>) -> (made: Vec<Spanned<String>>)
    ensures
        views(made@) == unplaced_all(views(texts@)),
{
    let ghost models = views(texts@);
    let ghost all = unplaced_all(models);
    let mut made: Vec<Spanned<String>> = Vec::new();
    let mut at: usize = 0;
    while at < texts.len()
        invariant
            at <= texts@.len(),
            models == views(texts@),
            all == unplaced_all(models),
            views(made@) =~= all.take(at as int),
        decreases texts@.len() - at,
    {
        assert(models[at as int] == texts@[at as int]@);
        let text = spanned_text(texts[at].as_str());
        proof {
            views_push(made@, text);
        }
        made.push(text);
        at = at + 1;
    }
    assert(all.take(all.len() as int) =~= all);
    made
}

fn node_declaration(node: &Node, declared: &Vec<String>) -> (made: NodeDeclaration)
    ensures
        made@ == written_node(node@, views(declared@)),
{
    let (named, extra) = split_labels(&node.labels, declared);
    NodeDeclaration {
        name: spanned_text(generated_name(node.id).as_str()),
        schemas: spanned_all(&named),
        record: record_body(node.id.to_string(), &node.properties, &extra, &node.contributions),
    }
}

fn reference_endpoint(reference: &NodeReference, links: &Vec<Link>) -> (made: Endpoint)
    ensures
        made@ == written_endpoint(reference@, views(links@)),
{
    match reference {
        NodeReference::Local(id) => Endpoint::Local(spanned_text(generated_name(*id).as_str())),
        NodeReference::External(scoped) => {
            let name = spanned_text(generated_name(scoped.local).as_str());
            let ghost models = views(links@);
            let mut at: usize = 0;
            while at < links.len()
                invariant
                    at <= links@.len(),
                    models == views(links@),
                    reference@ == ReferenceModel::External(scoped@),
                    name@ == unplaced(name_of(scoped@.local)),
                    find_link(models, scoped@.source, 0) == find_link(
                        models,
                        scoped@.source,
                        at as int,
                    ),
                decreases links@.len() - at,
            {
                assert(models[at as int] == links@[at as int]@);
                if same(links[at].source.as_str(), scoped.source.as_str()) {
                    return match &links[at].alias {
                        Some(alias) => Endpoint::Aliased {
                            alias: spanned_text(alias.as_str()),
                            name,
                        },
                        None => Endpoint::Locator {
                            locator: spanned_text(scoped.source.as_str()),
                            name,
                        },
                    };
                }
                at = at + 1;
            }
            Endpoint::Locator { locator: spanned_text(scoped.source.as_str()), name }
        }
    }
}

fn edge_declaration(edge: &Edge, links: &Vec<Link>) -> (made: EdgeDeclaration)
    ensures
        made@ == written_edge(edge@, views(links@)),
{
    let none: Vec<String> = Vec::new();
    assert(views(none@) =~= Seq::<Seq<char>>::empty());
    EdgeDeclaration {
        source: reference_endpoint(&edge.source, links),
        target: reference_endpoint(&edge.target, links),
        relation: spanned_text(edge.relation.as_str()),
        record: record_body(edge.id.to_string(), &edge.properties, &none, &edge.contributions),
    }
}

fn declaration_order(schemas: usize, nodes: usize, edges: usize) -> (order: Vec<DeclarationRef>)
    ensures
        order@ == written_order(schemas as nat, nodes as nat, edges as nat),
{
    let ghost all = written_order(schemas as nat, nodes as nat, edges as nat);
    let mut order: Vec<DeclarationRef> = Vec::new();
    let mut at: usize = 0;
    while at < schemas
        invariant
            at <= schemas,
            all == written_order(schemas as nat, nodes as nat, edges as nat),
            order@ =~= all.take(at as int),
        decreases schemas - at,
    {
        order.push(DeclarationRef::Schema(at));
        at = at + 1;
    }
    let mut at: usize = 0;
    while at < nodes
        invariant
            at <= nodes,
            all == written_order(schemas as nat, nodes as nat, edges as nat),
            order@ =~= all.take(schemas + at as int),
        decreases nodes - at,
    {
        order.push(DeclarationRef::Node(at));
        at = at + 1;
    }
    let mut at: usize = 0;
    while at < edges
        invariant
            at <= edges,
            all == written_order(schemas as nat, nodes as nat, edges as nat),
            order@ =~= all.take(schemas + nodes + at as int),
        decreases edges - at,
    {
        order.push(DeclarationRef::Edge(at));
        at = at + 1;
    }
    assert(all.take(all.len() as int) =~= all);
    order
}

fn schema_names(schemas: &Vec<Schema>) -> (names: Vec<String>)
    ensures
        views(names@) == declared_names(views(schemas@)),
{
    let ghost models = views(schemas@);
    let ghost all = declared_names(models);
    let mut names: Vec<String> = Vec::new();
    let mut at: usize = 0;
    while at < schemas.len()
        invariant
            at <= schemas@.len(),
            models == views(schemas@),
            all == declared_names(models),
            views(names@) =~= all.take(at as int),
        decreases schemas@.len() - at,
    {
        assert(models[at as int] == schemas@[at as int]@);
        let name = schemas[at].name.as_str().to_owned();
        proof {
            views_push(names@, name);
        }
        names.push(name);
        at = at + 1;
    }
    assert(all.take(all.len() as int) =~= all);
    names
}

/// Turns a graph into a document.
///
/// Declaration names are regenerated and labels are split between the schema list and the
/// reserved `labels` property as `document_of` says.
pub fn from_graph(graph: &Graph) -> (file: SourceFile)
    ensures
        file@ == document_of(graph@),
{
    let ghost whole = document_of(graph@);
    let declared = schema_names(&graph.schemas);
    let mut links: Vec<LinkDeclaration> = Vec::new();
    let mut at: usize = 0;
    while at < graph.links.len()
        invariant
            at <= graph.links@.len(),
            whole == document_of(graph@),
            views(links@) =~= whole.links.take(at as int),
        decreases graph.links@.len() - at,
    {
        assert(graph@.links[at as int] == graph.links@[at as int]@);
        let made = link_declaration(&graph.links[at]);
        proof {
            views_push(links@, made);
        }
        links.push(made);
        at = at + 1;
    }
    let mut schemas: Vec<SchemaDeclaration> = Vec::new();
    let mut at: usize = 0;
    while at < graph.schemas.len()
        invariant
            at <= graph.schemas@.len(),
            whole == document_of(graph@),
            views(schemas@) =~= whole.schemas.take(at as int),
        decreases graph.schemas@.len() - at,
    {
        assert(graph@.schemas[at as int] == graph.schemas@[at as int]@);
        let made = schema_declaration(&graph.schemas[at]);
        proof {
            views_push(schemas@, made);
        }
        schemas.push(made);
        at = at + 1;
    }
    let mut nodes: Vec<NodeDeclaration> = Vec::new();
    let mut at: usize = 0;
    while at < graph.nodes.len()
        invariant
            at <= graph.nodes@.len(),
            whole == document_of(graph@),
            views(declared@) == declared_names(graph@.schemas),
            views(nodes@) =~= whole.nodes.take(at as int),
        decreases graph.nodes@.len() - at,
    {
        assert(graph@.nodes[at as int] == graph.nodes@[at as int]@);
        let made = node_declaration(&graph.nodes[at], &declared);
        proof {
            views_push(nodes@, made);
        }
        nodes.push(made);
        at = at + 1;
    }
    let mut edges: Vec<EdgeDeclaration> = Vec::new();
    let mut at: usize = 0;
    while at < graph.edges.len()
        invariant
            at <= graph.edges@.len(),
            whole == document_of(graph@),
            views(edges@) =~= whole.edges.take(at as int),
        decreases graph.edges@.len() - at,
    {
        assert(graph@.edges[at as int] == graph.edges@[at as int]@);
        let made = edge_declaration(&graph.edges[at], &graph.links);
        proof {
            views_push(edges@, made);
        }
        edges.push(made);
        at = at + 1;
    }
    proof {
        assert(whole.links.take(whole.links.len() as int) =~= whole.links);
        assert(whole.schemas.take(whole.schemas.len() as int) =~= whole.schemas);
        assert(whole.nodes.take(whole.nodes.len() as int) =~= whole.nodes);
        assert(whole.edges.take(whole.edges.len() as int) =~= whole.edges);
    }
    let order = declaration_order(graph.schemas.len(), graph.nodes.len(), graph.edges.len());
    SourceFile {
        version: Spanned { value: LANGUAGE_VERSION, range: SourceRange::origin() },
        version_comments: Comments::default(),
        links,
        schemas,
        nodes,
        edges,
        order,
        trailing_comments: no_comments(),
    }
}

} // verus!
