//! Semantic validation for a parsed `.nost` file.
//!
//! These are the rules the grammar cannot express. Each produces its stable diagnostic
//! code with a source range, and every problem is reported rather than only the first.
//!
//! Two of them are warnings rather than errors: an unresolved endpoint becomes a
//! Placeholder, and a schema violation is soft.

use super::list_model;
use super::ContributionBlock;
use super::ContributionBlockModel;
use super::EdgeDeclaration;
use super::EdgeDeclarationModel;
use super::Endpoint;
use super::EndpointModel;
use super::EvidenceBlock;
use super::EvidenceBlockModel;
use super::EvidenceFieldModel;
use super::EvidenceValue;
use super::EvidenceValueModel;
use super::LinkDeclaration;
use super::LinkDeclarationModel;
use super::NodeDeclaration;
use super::NodeDeclarationModel;
use super::OwnerDeclaration;
use super::Property;
use super::PropertyModel;
use super::RecordBody;
use super::RecordBodyModel;
use super::SchemaDeclaration;
use super::SchemaDeclarationModel;
use super::SchemaFieldModel;
use super::SourceFile;
use super::SourceFileModel;
use super::Spanned;
use super::Value;
use super::ValueModel;
use super::LANGUAGE_VERSION;
use super::format::find_property;
use crate::contribution::OwnerKind;
use crate::decimal::parse_double;
use crate::decimal::read_double;
use crate::diagnostic::Diagnostic;
use crate::diagnostic::DiagnosticCode;
use crate::diagnostic::DiagnosticModel;
use crate::diagnostic::Severity;
use crate::evidence::SourceRange;
use crate::float::finite;
use crate::float::is_finite;
use crate::id::body_fault;
use crate::id::canonical;
use crate::id::IdError;
use crate::id::LocalEdgeId;
use crate::id::LocalNodeId;
use crate::id::SourceUnitId;
use crate::number::digits_of;
use crate::number::parse_signed;
use crate::number::read_signed;
use crate::number::write_digits;
use crate::order::in_sequence;
use crate::order::sorted;
use crate::order::texts_are_asymmetric;
use crate::order::texts_are_ranked;
use crate::order::Ordered;
use crate::property::valid_datetime;
use crate::property::DateTime;
use crate::property::DateTimeError;
use crate::schema::FieldType;
use crate::schema::ScalarType;
use crate::text::is_before;
use crate::text::precedes;
use crate::text::same;
use crate::text::views;
use crate::text::views_push;
use crate::text::NonEmptyText;
use vstd::prelude::*;
use vstd::string::StringExecFns;

verus! {

/// Language versions this build understands.
///
/// Version 1 is absent deliberately. It required a module declaration version 2 has no
/// production for, so accepting it would promise a parse this build cannot deliver.
pub const SUPPORTED_LANGUAGE_VERSIONS: [u32; 1] = [2];

/// Property key whose value is a confidence score constrained to `0.0..=1.0`.
pub const CONFIDENCE_SCORE_KEY: &'static str = "confidence_score";

/// Reserved property key holding the opaque record identifier.
pub const ID_KEY: &'static str = "id";

/// Reserved property key holding labels beyond the record's schema names.
pub const LABELS_KEY: &'static str = "labels";

// -- Findings ----------------------------------------------------------------------

/// A finding.
pub open spec fn finding(
    code: DiagnosticCode,
    range: SourceRange,
    message: Seq<char>,
) -> DiagnosticModel {
    DiagnosticModel {
        code,
        severity: code.severity(),
        message: if message.len() > 0 {
            message
        } else {
            "a semantic rule was broken"@
        },
        source: None,
        range: Some(range),
        details: Seq::empty(),
    }
}

/// One finding, or none.
pub open spec fn when(
    holds: bool,
    code: DiagnosticCode,
    range: SourceRange,
    message: Seq<char>,
) -> Seq<DiagnosticModel> {
    if holds {
        seq![finding(code, range, message)]
    } else {
        Seq::empty()
    }
}

fn report(found: &mut Vec<Diagnostic>, code: DiagnosticCode, range: SourceRange, message: &str)
    ensures
        views(final(found)@) == views(old(found)@) + seq![finding(code, range, message@)],
{
    proof {
        reveal_strlit("a semantic rule was broken");
    }
    let made = Diagnostic {
        code,
        severity: code.default_severity(),
        message: NonEmptyText::new_or(message, "a semantic rule was broken"),
        source: None,
        range: Some(range),
        details: Vec::new(),
    };
    assert(made@.details =~= Seq::empty());
    proof {
        views_push(found@, made);
    }
    found.push(made);
    assert(views(found@) =~= views(old(found)@) + seq![finding(code, range, message@)]);
}

fn no_findings() -> (found: Vec<Diagnostic>)
    ensures
        views(found@) == Seq::<DiagnosticModel>::empty(),
{
    let found: Vec<Diagnostic> = Vec::new();
    assert(views(found@) =~= Seq::<DiagnosticModel>::empty());
    found
}

fn report_if(
    holds: bool,
    code: DiagnosticCode,
    range: SourceRange,
    message: &str,
) -> (found: Vec<Diagnostic>)
    ensures
        views(found@) == when(holds, code, range, message@),
{
    let mut found = no_findings();
    if holds {
        report(&mut found, code, range, message);
        assert(Seq::<DiagnosticModel>::empty() + seq![finding(code, range, message@)] =~= seq![
            finding(code, range, message@),
        ]);
    }
    found
}

/// Appends findings.
fn take(found: &mut Vec<Diagnostic>, more: Vec<Diagnostic>)
    ensures
        views(final(found)@) == views(old(found)@) + views(more@),
{
    let ghost before = found@;
    let ghost added = more@;
    let mut rest = more;
    found.append(&mut rest);
    assert(views(found@) =~= views(before) + views(added));
}

fn around(before: &str, text: &str, after: &str) -> (whole: String)
    ensures
        whole@ == before@ + text@ + after@,
{
    let mut whole = before.to_owned();
    whole.append(text);
    whole.append(after);
    whole
}

// -- Links -------------------------------------------------------------------------

/// Whether one of the first `count` links has a locator.
pub open spec fn links_to(links: Seq<LinkDeclarationModel>, count: int, locator: Seq<char>) -> bool {
    exists|i: int| 0 <= i < count && (#[trigger] links[i]).source.value == locator
}

/// Whether one of the first `count` links has an alias.
pub open spec fn claims_alias(
    links: Seq<LinkDeclarationModel>,
    count: int,
    alias: Seq<char>,
) -> bool {
    exists|i: int|
        0 <= i < count && ((#[trigger] links[i]).alias matches Some(name) && name.value == alias)
}

/// What is wrong with the first `count` links.
pub open spec fn link_findings(links: Seq<LinkDeclarationModel>, count: int) -> Seq<DiagnosticModel>
    decreases count,
{
    if count <= 0 {
        Seq::empty()
    } else {
        let link = links[count - 1];
        link_findings(links, count - 1) + when(
            links_to(links, count - 1, link.source.value),
            DiagnosticCode::NostDuplicateLinkSource,
            link.source.range,
            "the link "@ + link.source.value + " is declared more than once"@,
        ) + (match link.alias {
            None => Seq::empty(),
            Some(alias) => when(
                claims_alias(links, count - 1, alias.value),
                DiagnosticCode::NostDuplicateLinkAlias,
                alias.range,
                "the link alias "@ + alias.value + " is claimed more than once"@,
            ),
        })
    }
}

fn has_link(links: &Vec<LinkDeclaration>, count: usize, locator: &str) -> (answer: bool)
    requires
        count <= links@.len(),
    ensures
        answer == links_to(views(links@), count as int, locator@),
{
    let ghost models = views(links@);
    let mut at: usize = 0;
    while at < count
        invariant
            at <= count <= links@.len(),
            models == views(links@),
            !links_to(models, at as int, locator@),
        decreases count - at,
    {
        assert(models[at as int] == links@[at as int]@);
        if same(links[at].source.value.as_str(), locator) {
            return true;
        }
        at = at + 1;
    }
    false
}

fn has_alias(links: &Vec<LinkDeclaration>, count: usize, alias: &str) -> (answer: bool)
    requires
        count <= links@.len(),
    ensures
        answer == claims_alias(views(links@), count as int, alias@),
{
    let ghost models = views(links@);
    let mut at: usize = 0;
    while at < count
        invariant
            at <= count <= links@.len(),
            models == views(links@),
            !claims_alias(models, at as int, alias@),
        decreases count - at,
    {
        assert(models[at as int] == links@[at as int]@);
        match &links[at].alias {
            Some(name) => {
                if same(name.value.as_str(), alias) {
                    return true;
                }
            }
            None => {}
        }
        at = at + 1;
    }
    false
}

fn check_links(links: &Vec<LinkDeclaration>) -> (found: Vec<Diagnostic>)
    ensures
        views(found@) == link_findings(views(links@), links@.len() as int),
{
    let ghost models = views(links@);
    let mut found = no_findings();
    let mut at: usize = 0;
    while at < links.len()
        invariant
            at <= links@.len(),
            models == views(links@),
            views(found@) == link_findings(models, at as int),
        decreases links@.len() - at,
    {
        let link = &links[at];
        assert(models[at as int] == link@);
        take(
            &mut found,
            report_if(
                has_link(links, at, link.source.value.as_str()),
                DiagnosticCode::NostDuplicateLinkSource,
                link.source.range,
                around(
                    "the link ",
                    link.source.value.as_str(),
                    " is declared more than once",
                ).as_str(),
            ),
        );
        match &link.alias {
            Some(alias) => {
                take(
                    &mut found,
                    report_if(
                        has_alias(links, at, alias.value.as_str()),
                        DiagnosticCode::NostDuplicateLinkAlias,
                        alias.range,
                        around(
                            "the link alias ",
                            alias.value.as_str(),
                            " is claimed more than once",
                        ).as_str(),
                    ),
                );
            }
            None => {
                assert(views(found@) =~= views(found@) + Seq::<DiagnosticModel>::empty());
            }
        }
        at = at + 1;
    }
    found
}

// -- Schemas -----------------------------------------------------------------------

/// Whether one of the first `count` schemas has a name.
pub open spec fn schema_declared(
    schemas: Seq<SchemaDeclarationModel>,
    count: int,
    name: Seq<char>,
) -> bool {
    exists|i: int| 0 <= i < count && (#[trigger] schemas[i]).name.value == name
}

/// Whether one of the first `count` fields has a key.
pub open spec fn field_declared(fields: Seq<SchemaFieldModel>, count: int, key: Seq<char>) -> bool {
    exists|i: int| 0 <= i < count && (#[trigger] fields[i]).key.value == key
}

/// What is wrong with the first `count` fields of a schema.
pub open spec fn field_findings(
    fields: Seq<SchemaFieldModel>,
    count: int,
    schema: Seq<char>,
) -> Seq<DiagnosticModel>
    decreases count,
{
    if count <= 0 {
        Seq::empty()
    } else {
        let key = fields[count - 1].key;
        field_findings(fields, count - 1, schema) + when(
            field_declared(fields, count - 1, key.value),
            DiagnosticCode::NostDuplicatePropertyKey,
            key.range,
            "the field key "@ + key.value + " is declared more than once in schema "@ + schema,
        )
    }
}

/// What is wrong with the first `count` schemas.
pub open spec fn schema_findings(schemas: Seq<SchemaDeclarationModel>, count: int) -> Seq<
    DiagnosticModel,
>
    decreases count,
{
    if count <= 0 {
        Seq::empty()
    } else {
        let schema = schemas[count - 1];
        schema_findings(schemas, count - 1) + when(
            schema_declared(schemas, count - 1, schema.name.value),
            DiagnosticCode::NostDuplicateSchemaName,
            schema.name.range,
            "the schema name "@ + schema.name.value + " is declared more than once"@,
        ) + field_findings(schema.fields, schema.fields.len() as int, schema.name.value)
    }
}

fn check_fields(schema: &SchemaDeclaration) -> (found: Vec<Diagnostic>)
    ensures
        views(found@) == field_findings(
            schema@.fields,
            schema@.fields.len() as int,
            schema@.name.value,
        ),
{
    let ghost models = schema@.fields;
    let mut found = no_findings();
    let mut at: usize = 0;
    while at < schema.fields.len()
        invariant
            at <= schema.fields@.len(),
            models == schema@.fields,
            views(found@) == field_findings(models, at as int, schema@.name.value),
        decreases schema.fields@.len() - at,
    {
        let key = &schema.fields[at].key;
        assert(models[at as int] == schema.fields@[at as int]@);
        let mut repeated = false;
        let mut back: usize = 0;
        while back < at
            invariant
                back <= at < schema.fields@.len(),
                models == schema@.fields,
                models[at as int].key.value == key@.value,
                repeated == field_declared(models, back as int, key@.value),
            decreases at - back,
        {
            assert(models[back as int] == schema.fields@[back as int]@);
            if same(schema.fields[back].key.value.as_str(), key.value.as_str()) {
                repeated = true;
            }
            back = back + 1;
        }
        let mut message = around(
            "the field key ",
            key.value.as_str(),
            " is declared more than once in schema ",
        );
        message.append(schema.name.value.as_str());
        take(
            &mut found,
            report_if(
                repeated,
                DiagnosticCode::NostDuplicatePropertyKey,
                key.range,
                message.as_str(),
            ),
        );
        at = at + 1;
    }
    found
}

fn check_schemas(schemas: &Vec<SchemaDeclaration>) -> (found: Vec<Diagnostic>)
    ensures
        views(found@) == schema_findings(views(schemas@), schemas@.len() as int),
{
    let ghost models = views(schemas@);
    let mut found = no_findings();
    let mut at: usize = 0;
    while at < schemas.len()
        invariant
            at <= schemas@.len(),
            models == views(schemas@),
            views(found@) == schema_findings(models, at as int),
        decreases schemas@.len() - at,
    {
        let schema = &schemas[at];
        assert(models[at as int] == schema@);
        let mut repeated = false;
        let mut back: usize = 0;
        while back < at
            invariant
                back <= at < schemas@.len(),
                models == views(schemas@),
                repeated == schema_declared(models, back as int, schema@.name.value),
            decreases at - back,
        {
            assert(models[back as int] == schemas@[back as int]@);
            if same(schemas[back].name.value.as_str(), schema.name.value.as_str()) {
                repeated = true;
            }
            back = back + 1;
        }
        take(
            &mut found,
            report_if(
                repeated,
                DiagnosticCode::NostDuplicateSchemaName,
                schema.name.range,
                around(
                    "the schema name ",
                    schema.name.value.as_str(),
                    " is declared more than once",
                ).as_str(),
            ),
        );
        take(&mut found, check_fields(schema));
        at = at + 1;
    }
    found
}

// -- Values ------------------------------------------------------------------------

/// Whether bits are those of a number within zero through one.
pub open spec fn unit_interval(bits: u64) -> bool {
    bits <= 0x3ff0_0000_0000_0000 || bits == 0x8000_0000_0000_0000
}

fn in_unit_interval(bits: u64) -> (answer: bool)
    ensures
        answer == unit_interval(bits),
{
    bits <= 0x3ff0_0000_0000_0000 || bits == 0x8000_0000_0000_0000
}

/// What is wrong with the first `count` items of a list.
pub open spec fn item_findings(
    key: Seq<char>,
    items: Seq<Spanned<ValueModel>>,
    count: nat,
) -> Seq<DiagnosticModel>
    decreases items, count,
{
    if count == 0 || count > items.len() {
        Seq::empty()
    } else {
        item_findings(key, items, (count - 1) as nat) + value_findings(
            key,
            items[count - 1].value,
            items[count - 1].range,
        )
    }
}

/// What is wrong with a value.
pub open spec fn value_findings(key: Seq<char>, value: ValueModel, range: SourceRange) -> Seq<
    DiagnosticModel,
>
    decreases value, 0nat,
{
    match value {
        ValueModel::Integer(text) => when(
            read_signed(text) is None,
            DiagnosticCode::NostIntegerOutOfRange,
            range,
            "the integer "@ + text + " does not fit in a signed 64-bit value"@,
        ),
        ValueModel::Float(text) => match read_double(text) {
            None => seq![
                finding(
                    DiagnosticCode::NostNonFiniteNumber,
                    range,
                    "the number "@ + text + " cannot be read as a finite value"@,
                ),
            ],
            Some(bits) => if !finite(bits) {
                seq![
                    finding(
                        DiagnosticCode::NostNonFiniteNumber,
                        range,
                        "the number "@ + text + " is not finite"@,
                    ),
                ]
            } else {
                when(
                    key == "confidence_score"@ && !unit_interval(bits),
                    DiagnosticCode::NostNonFiniteNumber,
                    range,
                    "a confidence score must be within 0.0 through 1.0, found "@ + text,
                )
            },
        },
        ValueModel::DateTime(text) => when(
            !valid_datetime(text),
            DiagnosticCode::NostInvalidDatetime,
            range,
            text + " is not a valid RFC 3339 timestamp: "@ + DateTimeError::Malformed.spec_message(),
        ),
        ValueModel::List(items) => item_findings(key, items, items.len()),
        _ => Seq::empty(),
    }
}

fn one_finding(code: DiagnosticCode, range: SourceRange, message: &str) -> (found: Vec<Diagnostic>)
    ensures
        views(found@) == seq![finding(code, range, message@)],
{
    report_if(true, code, range, message)
}

fn check_float(key: &str, text: &str, range: SourceRange) -> (found: Vec<Diagnostic>)
    ensures
        views(found@) == value_findings(key@, ValueModel::Float(text@), range),
{
    match parse_double(text) {
        None => one_finding(
            DiagnosticCode::NostNonFiniteNumber,
            range,
            around("the number ", text, " cannot be read as a finite value").as_str(),
        ),
        Some(bits) => {
            if !is_finite(bits) {
                one_finding(
                    DiagnosticCode::NostNonFiniteNumber,
                    range,
                    around("the number ", text, " is not finite").as_str(),
                )
            } else {
                let mut message =
                    "a confidence score must be within 0.0 through 1.0, found ".to_owned();
                message.append(text);
                report_if(
                    same(key, "confidence_score") && !in_unit_interval(bits),
                    DiagnosticCode::NostNonFiniteNumber,
                    range,
                    message.as_str(),
                )
            }
        }
    }
}

fn check_items(key: &str, items: &Vec<Spanned<Value>>) -> (found: Vec<Diagnostic>)
    ensures
        views(found@) == item_findings(key@, views(items@), items@.len()),
    decreases items, 0nat,
{
    let ghost models = views(items@);
    let mut found = no_findings();
    let mut at: usize = 0;
    while at < items.len()
        invariant
            at <= items@.len(),
            models == views(items@),
            views(found@) == item_findings(key@, models, at as nat),
        decreases items@.len() - at,
    {
        assert(models[at as int] == items@[at as int]@);
        assert(decreases_to!(items => items@[at as int].value));
        take(&mut found, check_value(key, &items[at].value, items[at].range));
        at = at + 1;
    }
    found
}

fn check_value(key: &str, value: &Value, range: SourceRange) -> (found: Vec<Diagnostic>)
    ensures
        views(found@) == value_findings(key@, value@, range),
    decreases value, 1nat,
{
    match value {
        Value::Integer(text) => report_if(
            parse_signed(text.as_str()).is_none(),
            DiagnosticCode::NostIntegerOutOfRange,
            range,
            around(
                "the integer ",
                text.as_str(),
                " does not fit in a signed 64-bit value",
            ).as_str(),
        ),
        Value::Float(text) => check_float(key, text.as_str(), range),
        Value::DateTime(text) => {
            let mut message = text.clone();
            message.append(" is not a valid RFC 3339 timestamp: ");
            message.append(DateTimeError::Malformed.message().as_str());
            report_if(
                DateTime::new(text.as_str()).is_err(),
                DiagnosticCode::NostInvalidDatetime,
                range,
                message.as_str(),
            )
        }
        Value::List(items) => {
            proof {
                list_model(items@);
            }
            check_items(key, items)
        }
        _ => no_findings(),
    }
}

// -- Reserved keys -----------------------------------------------------------------

/// Why a text is no record identifier, if it is none.
pub open spec fn id_fault(text: Seq<char>, node: bool) -> Option<Seq<char>> {
    let prefixed = if node {
        LocalNodeId::has_prefix(text)
    } else {
        LocalEdgeId::has_prefix(text)
    };
    if prefixed && canonical(text.skip(2)) {
        None
    } else if prefixed {
        Some(body_fault(text.skip(2)).spec_message())
    } else {
        Some(IdError::MissingPrefix { expected: if node { "n_" } else { "e_" } }.spec_message())
    }
}

/// Whether every item of a list is a string.
pub open spec fn all_strings(items: Seq<Spanned<ValueModel>>) -> bool {
    forall|i: int| 0 <= i < items.len() ==> (#[trigger] items[i]).value is String
}

/// What is wrong with a property because its key is reserved. `ids` are the identifiers
/// used before it.
pub open spec fn reserved_findings(
    property: PropertyModel,
    ids: Seq<Seq<char>>,
    node: bool,
) -> Seq<DiagnosticModel> {
    let range = property.value.range;
    if property.key.value == "id"@ {
        match property.value.value {
            ValueModel::String(text) => match id_fault(text, node) {
                Some(wrong) => seq![
                    finding(
                        DiagnosticCode::NostInvalidId,
                        range,
                        text + " is not a valid record identifier: "@ + wrong,
                    ),
                ],
                None => when(
                    ids.contains(text),
                    DiagnosticCode::NostDuplicateId,
                    range,
                    "the record identifier "@ + text + " is used more than once"@,
                ),
            },
            other => seq![
                finding(
                    DiagnosticCode::NostInvalidId,
                    range,
                    "the reserved key `id` holds a quoted identifier, found a "@ + other.kind(),
                ),
            ],
        }
    } else if property.key.value == "labels"@ {
        when(
            !(property.value.value matches ValueModel::List(items) && all_strings(items)),
            DiagnosticCode::NostSchemaViolation,
            range,
            "the reserved key `labels` holds a list of strings"@,
        )
    } else {
        Seq::empty()
    }
}

/// The identifier a property uses, if it states a valid one.
pub open spec fn used_id(property: PropertyModel, node: bool) -> Option<Seq<char>> {
    if property.key.value == "id"@ {
        match property.value.value {
            ValueModel::String(text) => if id_fault(text, node) is None {
                Some(text)
            } else {
                None
            },
            _ => None,
        }
    } else {
        None
    }
}

/// The identifiers used after a property.
pub open spec fn ids_after(ids: Seq<Seq<char>>, property: PropertyModel, node: bool) -> Seq<
    Seq<char>,
> {
    match used_id(property, node) {
        Some(text) => ids.push(text),
        None => ids,
    }
}

fn find_id_fault(text: &str, node: bool) -> (wrong: Option<String>)
    ensures
        match wrong {
            Some(message) => id_fault(text@, node) == Some(message@),
            None => id_fault(text@, node) is None,
        },
{
    if node {
        match LocalNodeId::from_str(text) {
            Ok(_) => None,
            Err(error) => Some(error.message()),
        }
    } else {
        match LocalEdgeId::from_str(text) {
            Ok(_) => None,
            Err(error) => Some(error.message()),
        }
    }
}

fn contains_text(texts: &Vec<String>, wanted: &str) -> (answer: bool)
    ensures
        answer == views(texts@).contains(wanted@),
{
    let ghost models = views(texts@);
    let mut at: usize = 0;
    while at < texts.len()
        invariant
            at <= texts@.len(),
            models == views(texts@),
            forall|i: int| 0 <= i < at ==> #[trigger] models[i] != wanted@,
        decreases texts@.len() - at,
    {
        assert(models[at as int] == texts@[at as int]@);
        if same(texts[at].as_str(), wanted) {
            return true;
        }
        at = at + 1;
    }
    false
}

fn holds_strings(value: &Value) -> (answer: bool)
    ensures
        answer == (value@ matches ValueModel::List(items) && all_strings(items)),
{
    match value {
        Value::List(items) => {
            proof {
                list_model(items@);
            }
            let ghost models = views(items@);
            let mut at: usize = 0;
            while at < items.len()
                invariant
                    at <= items@.len(),
                    models == views(items@),
                    value@ == ValueModel::List(models),
                    forall|i: int| 0 <= i < at ==> (#[trigger] models[i]).value is String,
                decreases items@.len() - at,
            {
                assert(models[at as int] == items@[at as int]@);
                match &items[at].value {
                    Value::String(_) => {}
                    _ => {
                        assert(!all_strings(models));
                        return false;
                    }
                }
                at = at + 1;
            }
            true
        }
        _ => false,
    }
}

fn check_reserved_key(property: &Property, ids: &mut Vec<String>, node: bool) -> (found: Vec<
    Diagnostic,
>)
    ensures
        views(found@) == reserved_findings(property@, views(old(ids)@), node),
        views(final(ids)@) == ids_after(views(old(ids)@), property@, node),
{
    let range = property.value.range;
    if same(property.key.value.as_str(), "id") {
        match &property.value.value {
            Value::String(text) => match find_id_fault(text.as_str(), node) {
                Some(wrong) => {
                    let mut message = text.clone();
                    message.append(" is not a valid record identifier: ");
                    message.append(wrong.as_str());
                    one_finding(DiagnosticCode::NostInvalidId, range, message.as_str())
                }
                None => {
                    let found = report_if(
                        contains_text(ids, text.as_str()),
                        DiagnosticCode::NostDuplicateId,
                        range,
                        around(
                            "the record identifier ",
                            text.as_str(),
                            " is used more than once",
                        ).as_str(),
                    );
                    let used = text.clone();
                    proof {
                        views_push(ids@, used);
                    }
                    ids.push(used);
                    found
                }
            },
            other => {
                let mut message =
                    "the reserved key `id` holds a quoted identifier, found a ".to_owned();
                message.append(other.kind_name());
                one_finding(DiagnosticCode::NostInvalidId, range, message.as_str())
            }
        }
    } else if same(property.key.value.as_str(), "labels") {
        report_if(
            !holds_strings(&property.value.value),
            DiagnosticCode::NostSchemaViolation,
            range,
            "the reserved key `labels` holds a list of strings",
        )
    } else {
        no_findings()
    }
}

// -- Records against schemas -------------------------------------------------------

/// A field a record's schemas declare.
///
/// Where two schemas declare one key, the declared types must agree, and a key that is
/// required in either is required.
pub struct FieldRule {
    key: String,
    declared: FieldType,
    required: bool,
}

/// What a field rule says.
pub struct FieldRuleModel {
    /// The key.
    pub key: Seq<char>,
    /// The type the first schema declares.
    pub declared: FieldType,
    /// Whether any schema requires it.
    pub required: bool,
}

impl View for FieldRule {
    type V = FieldRuleModel;

    closed spec fn view(&self) -> FieldRuleModel {
        FieldRuleModel { key: self.key@, declared: self.declared, required: self.required }
    }
}

impl Ordered for FieldRule {
    open spec fn before(left: FieldRuleModel, right: FieldRuleModel) -> bool {
        precedes(left.key, right.key)
    }

    proof fn before_is_asymmetric(left: FieldRuleModel, right: FieldRuleModel) {
        texts_are_asymmetric(left.key, right.key);
    }

    proof fn before_is_ranked(
        first: FieldRuleModel,
        second: FieldRuleModel,
        third: FieldRuleModel,
    ) {
        texts_are_ranked(first.key, second.key, third.key);
    }

    fn comes_before(&self, other: &Self) -> (answer: bool) {
        is_before(self.key.as_str(), other.key.as_str())
    }
}

/// The rule for a key, from `at` on.
pub open spec fn find_rule(rules: Seq<FieldRuleModel>, key: Seq<char>, at: int) -> Option<int>
    decreases rules.len() - at,
{
    if at < 0 || at >= rules.len() {
        None
    } else if rules[at].key == key {
        Some(at)
    } else {
        find_rule(rules, key, at + 1)
    }
}

/// The last of the first `count` schemas that has a name.
pub open spec fn find_schema(
    schemas: Seq<SchemaDeclarationModel>,
    count: int,
    name: Seq<char>,
) -> Option<int>
    decreases count,
{
    if count <= 0 {
        None
    } else if schemas[count - 1].name.value == name {
        Some(count - 1)
    } else {
        find_schema(schemas, count - 1, name)
    }
}

/// The rules after the first `count` fields of one more schema.
pub open spec fn rules_with(
    rules: Seq<FieldRuleModel>,
    fields: Seq<SchemaFieldModel>,
    count: int,
) -> Seq<FieldRuleModel>
    decreases count,
{
    if count <= 0 {
        rules
    } else {
        let earlier = rules_with(rules, fields, count - 1);
        let field = fields[count - 1];
        match find_rule(earlier, field.key.value, 0) {
            None => earlier.push(
                FieldRuleModel {
                    key: field.key.value,
                    declared: field.field_type.value,
                    required: !field.optional,
                },
            ),
            Some(at) => earlier.update(
                at,
                FieldRuleModel {
                    required: earlier[at].required || !field.optional,
                    ..earlier[at]
                },
            ),
        }
    }
}

/// Where the first `count` fields of one more schema disagree with the rules.
pub open spec fn conflicts_with(
    rules: Seq<FieldRuleModel>,
    fields: Seq<SchemaFieldModel>,
    count: int,
) -> Seq<DiagnosticModel>
    decreases count,
{
    if count <= 0 {
        Seq::empty()
    } else {
        let earlier = rules_with(rules, fields, count - 1);
        let field = fields[count - 1];
        conflicts_with(rules, fields, count - 1) + (match find_rule(earlier, field.key.value, 0) {
            None => Seq::empty(),
            Some(at) => when(
                earlier[at].declared != field.field_type.value,
                DiagnosticCode::NostSchemaConflict,
                field.key.range,
                "the field "@ + field.key.value + " is declared as "@ + earlier[at].declared.text()
                    + " and as "@ + field.field_type.value.text()
                    + " by two schemas this record names"@,
            ),
        })
    }
}

/// The rules the first `count` schemas a record names make.
pub open spec fn rules_of(
    schemas: Seq<SchemaDeclarationModel>,
    named: Seq<Spanned<Seq<char>>>,
    count: int,
) -> Seq<FieldRuleModel>
    decreases count,
{
    if count <= 0 {
        Seq::empty()
    } else {
        let earlier = rules_of(schemas, named, count - 1);
        match find_schema(schemas, schemas.len() as int, named[count - 1].value) {
            None => earlier,
            Some(at) => rules_with(earlier, schemas[at].fields, schemas[at].fields.len() as int),
        }
    }
}

/// Where the first `count` schemas a record names disagree.
pub open spec fn conflicts_of(
    schemas: Seq<SchemaDeclarationModel>,
    named: Seq<Spanned<Seq<char>>>,
    count: int,
) -> Seq<DiagnosticModel>
    decreases count,
{
    if count <= 0 {
        Seq::empty()
    } else {
        conflicts_of(schemas, named, count - 1) + (match find_schema(
            schemas,
            schemas.len() as int,
            named[count - 1].value,
        ) {
            None => Seq::empty(),
            Some(at) => conflicts_with(
                rules_of(schemas, named, count - 1),
                schemas[at].fields,
                schemas[at].fields.len() as int,
            ),
        })
    }
}

/// Whether a scalar has a type.
pub open spec fn scalar_matches(value: ValueModel, scalar: ScalarType) -> bool {
    match scalar {
        ScalarType::Boolean => value is Boolean,
        ScalarType::Integer => value is Integer,
        ScalarType::Double => value is Float,
        ScalarType::String => value is String,
        ScalarType::Bytes => value is Bytes,
        ScalarType::DateTime => value is DateTime,
    }
}

/// Whether every item of a list has a type.
pub open spec fn all_match(items: Seq<Spanned<ValueModel>>, scalar: ScalarType) -> bool {
    forall|i: int| 0 <= i < items.len() ==> scalar_matches((#[trigger] items[i]).value, scalar)
}

/// Whether a value has a type.
pub open spec fn value_matches(value: ValueModel, declared: FieldType) -> bool {
    if declared.array {
        value matches ValueModel::List(items) && all_match(items, declared.scalar)
    } else {
        scalar_matches(value, declared.scalar)
    }
}

/// What a record lacks or holds wrongly by one rule.
pub open spec fn rule_findings(
    rule: FieldRuleModel,
    properties: Seq<PropertyModel>,
    head: SourceRange,
) -> Seq<DiagnosticModel> {
    match find_property(properties, rule.key, 0) {
        None => when(
            rule.required,
            DiagnosticCode::NostSchemaViolation,
            head,
            "the required field "@ + rule.key + " of type "@ + rule.declared.text() + " is missing"@,
        ),
        Some(at) => when(
            !value_matches(properties[at].value.value, rule.declared),
            DiagnosticCode::NostSchemaViolation,
            properties[at].value.range,
            "the field "@ + rule.key + " is declared "@ + rule.declared.text() + " but holds a "@
                + properties[at].value.value.kind(),
        ),
    }
}

/// What a record lacks or holds wrongly by the first `count` rules.
pub open spec fn rules_findings(
    rules: Seq<FieldRuleModel>,
    count: int,
    properties: Seq<PropertyModel>,
    head: SourceRange,
) -> Seq<DiagnosticModel>
    decreases count,
{
    if count <= 0 {
        Seq::empty()
    } else {
        rules_findings(rules, count - 1, properties, head) + rule_findings(
            rules[count - 1],
            properties,
            head,
        )
    }
}

/// Whether one of the first `count` properties has a key.
pub open spec fn key_set(properties: Seq<PropertyModel>, count: int, key: Seq<char>) -> bool {
    exists|i: int| 0 <= i < count && (#[trigger] properties[i]).key.value == key
}

/// The identifiers used after the first `count` properties.
pub open spec fn ids_of(
    properties: Seq<PropertyModel>,
    count: int,
    ids: Seq<Seq<char>>,
    node: bool,
) -> Seq<Seq<char>>
    decreases count,
{
    if count <= 0 {
        ids
    } else {
        ids_after(ids_of(properties, count - 1, ids, node), properties[count - 1], node)
    }
}

/// What is wrong with the first `count` properties of a record.
pub open spec fn property_findings(
    properties: Seq<PropertyModel>,
    count: int,
    ids: Seq<Seq<char>>,
    node: bool,
) -> Seq<DiagnosticModel>
    decreases count,
{
    if count <= 0 {
        Seq::empty()
    } else {
        let property = properties[count - 1];
        property_findings(properties, count - 1, ids, node) + when(
            key_set(properties, count - 1, property.key.value),
            DiagnosticCode::NostDuplicatePropertyKey,
            property.key.range,
            "the property key "@ + property.key.value + " is set more than once in this block"@,
        ) + value_findings(property.key.value, property.value.value, property.value.range)
            + reserved_findings(property, ids_of(properties, count - 1, ids, node), node)
    }
}

/// What is wrong with a record.
pub open spec fn record_findings(
    schemas: Seq<SchemaDeclarationModel>,
    named: Seq<Spanned<Seq<char>>>,
    record: RecordBodyModel,
    head: SourceRange,
    ids: Seq<Seq<char>>,
    node: bool,
) -> Seq<DiagnosticModel> {
    let rules = sorted::<FieldRule>(rules_of(schemas, named, named.len() as int));
    property_findings(record.properties, record.properties.len() as int, ids, node) + conflicts_of(
        schemas,
        named,
        named.len() as int,
    ) + rules_findings(rules, rules.len() as int, record.properties, head)
}

fn schema_index(schemas: &Vec<SchemaDeclaration>, name: &str) -> (found: Option<usize>)
    ensures
        match found {
            Some(at) => at < schemas@.len() && find_schema(
                views(schemas@),
                schemas@.len() as int,
                name@,
            ) == Some(at as int),
            None => find_schema(views(schemas@), schemas@.len() as int, name@) is None,
        },
{
    let ghost models = views(schemas@);
    let mut at: usize = schemas.len();
    while at > 0
        invariant
            at <= schemas@.len(),
            models == views(schemas@),
            find_schema(models, schemas@.len() as int, name@) == find_schema(
                models,
                at as int,
                name@,
            ),
        decreases at,
    {
        assert(models[at - 1] == schemas@[at - 1]@);
        if same(schemas[at - 1].name.value.as_str(), name) {
            return Some(at - 1);
        }
        at = at - 1;
    }
    None
}

fn rule_index(rules: &Vec<FieldRule>, key: &str) -> (found: Option<usize>)
    ensures
        match found {
            Some(at) => at < rules@.len() && find_rule(views(rules@), key@, 0) == Some(at as int),
            None => find_rule(views(rules@), key@, 0) is None,
        },
{
    let ghost models = views(rules@);
    let mut at: usize = 0;
    while at < rules.len()
        invariant
            at <= rules@.len(),
            models == views(rules@),
            find_rule(models, key@, 0) == find_rule(models, key@, at as int),
        decreases rules@.len() - at,
    {
        assert(models[at as int] == rules@[at as int]@);
        if same(rules[at].key.as_str(), key) {
            return Some(at);
        }
        at = at + 1;
    }
    None
}

fn add_schema(rules: &mut Vec<FieldRule>, schema: &SchemaDeclaration) -> (found: Vec<Diagnostic>)
    ensures
        views(final(rules)@) == rules_with(
            views(old(rules)@),
            schema@.fields,
            schema@.fields.len() as int,
        ),
        views(found@) == conflicts_with(
            views(old(rules)@),
            schema@.fields,
            schema@.fields.len() as int,
        ),
{
    let ghost first = views(rules@);
    let ghost models = schema@.fields;
    let mut found = no_findings();
    let mut at: usize = 0;
    while at < schema.fields.len()
        invariant
            at <= schema.fields@.len(),
            models == schema@.fields,
            views(rules@) == rules_with(first, models, at as int),
            views(found@) == conflicts_with(first, models, at as int),
        decreases schema.fields@.len() - at,
    {
        let field = &schema.fields[at];
        let ghost earlier = views(rules@);
        assert(models[at as int] == field@);
        match rule_index(rules, field.key.value.as_str()) {
            None => {
                let rule = FieldRule {
                    key: field.key.value.clone(),
                    declared: field.field_type.value,
                    required: !field.optional,
                };
                proof {
                    views_push(rules@, rule);
                }
                rules.push(rule);
                assert(views(found@) =~= views(found@) + Seq::<DiagnosticModel>::empty());
            }
            Some(slot) => {
                let declared = rules[slot].declared;
                let required = rules[slot].required;
                let mut message = around("the field ", field.key.value.as_str(), " is declared as ");
                message.append(declared.to_string().as_str());
                message.append(" and as ");
                message.append(field.field_type.value.to_string().as_str());
                message.append(" by two schemas this record names");
                assert(earlier[slot as int] == rules@[slot as int]@);
                take(
                    &mut found,
                    report_if(
                        declared != field.field_type.value,
                        DiagnosticCode::NostSchemaConflict,
                        field.key.range,
                        message.as_str(),
                    ),
                );
                let rule = FieldRule {
                    key: rules[slot].key.clone(),
                    declared,
                    required: required || !field.optional,
                };
                let ghost model = rule@;
                rules.set(slot, rule);
                assert(views(rules@) =~= earlier.update(slot as int, model));
            }
        }
        at = at + 1;
    }
    found
}

/// The rules of the schemas a record names, and where these disagree.
fn effective_schema(schemas: &Vec<SchemaDeclaration>, named: &Vec<&Spanned<String>>) -> (made: (
    Vec<FieldRule>,
    Vec<Diagnostic>,
))
    ensures
        views(made.0@) == rules_of(
            views(schemas@),
            crate::order::shown(named@),
            named@.len() as int,
        ),
        views(made.1@) == conflicts_of(
            views(schemas@),
            crate::order::shown(named@),
            named@.len() as int,
        ),
{
    let ghost models = crate::order::shown(named@);
    let ghost known = views(schemas@);
    let mut rules: Vec<FieldRule> = Vec::new();
    let mut found = no_findings();
    assert(views(rules@) =~= Seq::<FieldRuleModel>::empty());
    let mut at: usize = 0;
    while at < named.len()
        invariant
            at <= named@.len(),
            models == crate::order::shown(named@),
            known == views(schemas@),
            views(rules@) == rules_of(known, models, at as int),
            views(found@) == conflicts_of(known, models, at as int),
        decreases named@.len() - at,
    {
        assert(models[at as int] == named@[at as int]@);
        match schema_index(schemas, named[at].value.as_str()) {
            None => {
                assert(views(found@) =~= views(found@) + Seq::<DiagnosticModel>::empty());
            }
            Some(index) => {
                assert(known[index as int] == schemas@[index as int]@);
                let more = add_schema(&mut rules, &schemas[index]);
                take(&mut found, more);
            }
        }
        at = at + 1;
    }
    (rules, found)
}

fn scalar_has_type(value: &Value, scalar: ScalarType) -> (answer: bool)
    ensures
        answer == scalar_matches(value@, scalar),
{
    match (value, scalar) {
        (Value::Boolean(_), ScalarType::Boolean) => true,
        (Value::Integer(_), ScalarType::Integer) => true,
        (Value::Float(_), ScalarType::Double) => true,
        (Value::String(_), ScalarType::String) => true,
        (Value::Bytes { .. }, ScalarType::Bytes) => true,
        (Value::DateTime(_), ScalarType::DateTime) => true,
        _ => false,
    }
}

fn value_has_type(value: &Value, declared: FieldType) -> (answer: bool)
    ensures
        answer == value_matches(value@, declared),
{
    if !declared.array {
        return scalar_has_type(value, declared.scalar);
    }
    match value {
        Value::List(items) => {
            proof {
                list_model(items@);
            }
            let ghost models = views(items@);
            let mut at: usize = 0;
            while at < items.len()
                invariant
                    at <= items@.len(),
                    models == views(items@),
                    value@ == ValueModel::List(models),
                    declared.array,
                    forall|i: int|
                        0 <= i < at ==> scalar_matches(
                            (#[trigger] models[i]).value,
                            declared.scalar,
                        ),
                decreases items@.len() - at,
            {
                assert(models[at as int] == items@[at as int]@);
                if !scalar_has_type(&items[at].value, declared.scalar) {
                    assert(!all_match(models, declared.scalar));
                    return false;
                }
                at = at + 1;
            }
            true
        }
        _ => false,
    }
}

fn property_index(properties: &Vec<Property>, key: &str) -> (found: Option<usize>)
    ensures
        match found {
            Some(at) => at < properties@.len() && find_property(views(properties@), key@, 0)
                == Some(at as int),
            None => find_property(views(properties@), key@, 0) is None,
        },
{
    let ghost models = views(properties@);
    let mut at: usize = 0;
    while at < properties.len()
        invariant
            at <= properties@.len(),
            models == views(properties@),
            find_property(models, key@, 0) == find_property(models, key@, at as int),
        decreases properties@.len() - at,
    {
        assert(models[at as int] == properties@[at as int]@);
        if same(properties[at].key.value.as_str(), key) {
            return Some(at);
        }
        at = at + 1;
    }
    None
}

fn check_rule(rule: &FieldRule, properties: &Vec<Property>, head: SourceRange) -> (found: Vec<
    Diagnostic,
>)
    ensures
        views(found@) == rule_findings(rule@, views(properties@), head),
{
    match property_index(properties, rule.key.as_str()) {
        None => {
            let mut message = around("the required field ", rule.key.as_str(), " of type ");
            message.append(rule.declared.to_string().as_str());
            message.append(" is missing");
            report_if(
                rule.required,
                DiagnosticCode::NostSchemaViolation,
                head,
                message.as_str(),
            )
        }
        Some(at) => {
            let property = &properties[at];
            assert(views(properties@)[at as int] == property@);
            let mut message = around("the field ", rule.key.as_str(), " is declared ");
            message.append(rule.declared.to_string().as_str());
            message.append(" but holds a ");
            message.append(property.value.value.kind_name());
            report_if(
                !value_has_type(&property.value.value, rule.declared),
                DiagnosticCode::NostSchemaViolation,
                property.value.range,
                message.as_str(),
            )
        }
    }
}

fn check_properties(properties: &Vec<Property>, ids: &mut Vec<String>, node: bool) -> (found: Vec<
    Diagnostic,
>)
    ensures
        views(found@) == property_findings(
            views(properties@),
            properties@.len() as int,
            views(old(ids)@),
            node,
        ),
        views(final(ids)@) == ids_of(
            views(properties@),
            properties@.len() as int,
            views(old(ids)@),
            node,
        ),
{
    let ghost models = views(properties@);
    let ghost first = views(ids@);
    let mut found = no_findings();
    let mut at: usize = 0;
    while at < properties.len()
        invariant
            at <= properties@.len(),
            models == views(properties@),
            views(found@) == property_findings(models, at as int, first, node),
            views(ids@) == ids_of(models, at as int, first, node),
        decreases properties@.len() - at,
    {
        let property = &properties[at];
        assert(models[at as int] == property@);
        let mut repeated = false;
        let mut back: usize = 0;
        while back < at
            invariant
                back <= at < properties@.len(),
                models == views(properties@),
                repeated == key_set(models, back as int, property@.key.value),
            decreases at - back,
        {
            assert(models[back as int] == properties@[back as int]@);
            if same(properties[back].key.value.as_str(), property.key.value.as_str()) {
                repeated = true;
            }
            back = back + 1;
        }
        take(
            &mut found,
            report_if(
                repeated,
                DiagnosticCode::NostDuplicatePropertyKey,
                property.key.range,
                around(
                    "the property key ",
                    property.key.value.as_str(),
                    " is set more than once in this block",
                ).as_str(),
            ),
        );
        take(
            &mut found,
            check_value(
                property.key.value.as_str(),
                &property.value.value,
                property.value.range,
            ),
        );
        let more = check_reserved_key(property, ids, node);
        take(&mut found, more);
        at = at + 1;
    }
    found
}

fn check_record(
    schemas: &Vec<SchemaDeclaration>,
    named: &Vec<&Spanned<String>>,
    record: &RecordBody,
    head: SourceRange,
    ids: &mut Vec<String>,
    node: bool,
) -> (found: Vec<Diagnostic>)
    ensures
        views(found@) == record_findings(
            views(schemas@),
            crate::order::shown(named@),
            record@,
            head,
            views(old(ids)@),
            node,
        ),
        views(final(ids)@) == ids_of(
            record@.properties,
            record@.properties.len() as int,
            views(old(ids)@),
            node,
        ),
{
    let mut found = check_properties(&record.properties, ids, node);
    let (rules, conflicts) = effective_schema(schemas, named);
    take(&mut found, conflicts);
    let ordered = in_sequence(&rules);
    let ghost models = sorted::<FieldRule>(views(rules@));
    let mut last = no_findings();
    let mut at: usize = 0;
    while at < ordered.len()
        invariant
            at <= ordered@.len(),
            models == crate::order::shown(ordered@),
            views(last@) == rules_findings(models, at as int, record@.properties, head),
        decreases ordered@.len() - at,
    {
        assert(models[at as int] == ordered@[at as int]@);
        take(&mut last, check_rule(ordered[at], &record.properties, head));
        at = at + 1;
    }
    take(&mut found, last);
    found
}

// -- Declarations ------------------------------------------------------------------

/// Whether one of the first `count` nodes has a name.
pub open spec fn node_declared(
    nodes: Seq<NodeDeclarationModel>,
    count: int,
    name: Seq<char>,
) -> bool {
    exists|i: int| 0 <= i < count && (#[trigger] nodes[i]).name.value == name
}

/// The identifiers the first `count` nodes use.
pub open spec fn node_ids(nodes: Seq<NodeDeclarationModel>, count: int) -> Seq<Seq<char>>
    decreases count,
{
    if count <= 0 {
        Seq::empty()
    } else {
        let properties = nodes[count - 1].record.properties;
        ids_of(properties, properties.len() as int, node_ids(nodes, count - 1), true)
    }
}

/// What is wrong with the first `count` nodes.
pub open spec fn node_findings(
    schemas: Seq<SchemaDeclarationModel>,
    nodes: Seq<NodeDeclarationModel>,
    count: int,
) -> Seq<DiagnosticModel>
    decreases count,
{
    if count <= 0 {
        Seq::empty()
    } else {
        let node = nodes[count - 1];
        node_findings(schemas, nodes, count - 1) + when(
            node_declared(nodes, count - 1, node.name.value),
            DiagnosticCode::NostDuplicateDeclarationName,
            node.name.range,
            "the name "@ + node.name.value + " is declared more than once in this file"@,
        ) + record_findings(
            schemas,
            node.schemas,
            node.record,
            node.name.range,
            node_ids(nodes, count - 1),
            true,
        )
    }
}

/// The first node with a name, from `at` on.
pub open spec fn find_node(nodes: Seq<NodeDeclarationModel>, name: Seq<char>, at: int) -> Option<
    int,
>
    decreases nodes.len() - at,
{
    if at < 0 || at >= nodes.len() {
        None
    } else if nodes[at].name.value == name {
        Some(at)
    } else {
        find_node(nodes, name, at + 1)
    }
}

/// Whether a record names a schema.
pub open spec fn carries(named: Seq<Spanned<Seq<char>>>, wanted: Seq<char>) -> bool {
    exists|i: int| 0 <= i < named.len() && (#[trigger] named[i]).value == wanted
}

/// What is wrong with one endpoint by the schema of its edge. Only a local endpoint can be
/// checked: the others name a record in a source this file cannot see.
pub open spec fn side_findings(
    nodes: Seq<NodeDeclarationModel>,
    relation: Seq<char>,
    endpoint: EndpointModel,
    required: Seq<char>,
    side: Seq<char>,
) -> Seq<DiagnosticModel> {
    match endpoint {
        EndpointModel::Local(name) => match find_node(nodes, name.value, 0) {
            None => Seq::empty(),
            Some(at) => when(
                !carries(nodes[at].schemas, required),
                DiagnosticCode::NostSchemaViolation,
                name.range,
                "schema "@ + relation + " requires its "@ + side + " to carry "@ + required
                    + ", but "@ + name.value + " does not"@,
            ),
        },
        _ => Seq::empty(),
    }
}

/// What is wrong with the endpoints of an edge by its schema.
pub open spec fn constraint_findings(
    schemas: Seq<SchemaDeclarationModel>,
    nodes: Seq<NodeDeclarationModel>,
    edge: EdgeDeclarationModel,
) -> Seq<DiagnosticModel> {
    match find_schema(schemas, schemas.len() as int, edge.relation.value) {
        None => Seq::empty(),
        Some(at) => match schemas[at].endpoints {
            None => Seq::empty(),
            Some(constraint) => side_findings(
                nodes,
                edge.relation.value,
                edge.source,
                constraint.source.value,
                "source"@,
            ) + side_findings(
                nodes,
                edge.relation.value,
                edge.target,
                constraint.target.value,
                "target"@,
            ),
        },
    }
}

/// The identifiers the nodes and the first `count` edges use.
pub open spec fn edge_ids(file: SourceFileModel, count: int) -> Seq<Seq<char>>
    decreases count,
{
    if count <= 0 {
        node_ids(file.nodes, file.nodes.len() as int)
    } else {
        let properties = file.edges[count - 1].record.properties;
        ids_of(properties, properties.len() as int, edge_ids(file, count - 1), false)
    }
}

/// What is wrong with the first `count` edges.
pub open spec fn edge_findings(file: SourceFileModel, count: int) -> Seq<DiagnosticModel>
    decreases count,
{
    if count <= 0 {
        Seq::empty()
    } else {
        let edge = file.edges[count - 1];
        edge_findings(file, count - 1) + record_findings(
            file.schemas,
            seq![edge.relation],
            edge.record,
            edge.relation.range,
            edge_ids(file, count - 1),
            false,
        ) + constraint_findings(file.schemas, file.nodes, edge)
    }
}

fn node_index(nodes: &Vec<NodeDeclaration>, name: &str) -> (found: Option<usize>)
    ensures
        match found {
            Some(at) => at < nodes@.len() && find_node(views(nodes@), name@, 0) == Some(at as int),
            None => find_node(views(nodes@), name@, 0) is None,
        },
{
    let ghost models = views(nodes@);
    let mut at: usize = 0;
    while at < nodes.len()
        invariant
            at <= nodes@.len(),
            models == views(nodes@),
            find_node(models, name@, 0) == find_node(models, name@, at as int),
        decreases nodes@.len() - at,
    {
        assert(models[at as int] == nodes@[at as int]@);
        if same(nodes[at].name.value.as_str(), name) {
            return Some(at);
        }
        at = at + 1;
    }
    None
}

fn names_schema(named: &Vec<Spanned<String>>, wanted: &str) -> (answer: bool)
    ensures
        answer == carries(views(named@), wanted@),
{
    let ghost models = views(named@);
    let mut at: usize = 0;
    while at < named.len()
        invariant
            at <= named@.len(),
            models == views(named@),
            forall|i: int| 0 <= i < at ==> (#[trigger] models[i]).value != wanted@,
        decreases named@.len() - at,
    {
        assert(models[at as int] == named@[at as int]@);
        if same(named[at].value.as_str(), wanted) {
            return true;
        }
        at = at + 1;
    }
    false
}

fn check_side(
    nodes: &Vec<NodeDeclaration>,
    relation: &str,
    endpoint: &Endpoint,
    required: &str,
    side: &str,
) -> (found: Vec<Diagnostic>)
    ensures
        views(found@) == side_findings(views(nodes@), relation@, endpoint@, required@, side@),
{
    match endpoint {
        Endpoint::Local(name) => match node_index(nodes, name.value.as_str()) {
            None => no_findings(),
            Some(at) => {
                assert(views(nodes@)[at as int] == nodes@[at as int]@);
                let mut message = around("schema ", relation, " requires its ");
                message.append(side);
                message.append(" to carry ");
                message.append(required);
                message.append(", but ");
                message.append(name.value.as_str());
                message.append(" does not");
                report_if(
                    !names_schema(&nodes[at].schemas, required),
                    DiagnosticCode::NostSchemaViolation,
                    name.range,
                    message.as_str(),
                )
            }
        },
        _ => no_findings(),
    }
}

fn check_edge_endpoint_constraint(
    schemas: &Vec<SchemaDeclaration>,
    nodes: &Vec<NodeDeclaration>,
    edge: &EdgeDeclaration,
) -> (found: Vec<Diagnostic>)
    ensures
        views(found@) == constraint_findings(views(schemas@), views(nodes@), edge@),
{
    match schema_index(schemas, edge.relation.value.as_str()) {
        None => no_findings(),
        Some(at) => {
            assert(views(schemas@)[at as int] == schemas@[at as int]@);
            match &schemas[at].endpoints {
                None => no_findings(),
                Some(constraint) => {
                    let mut found = check_side(
                        nodes,
                        edge.relation.value.as_str(),
                        &edge.source,
                        constraint.source.value.as_str(),
                        "source",
                    );
                    take(
                        &mut found,
                        check_side(
                            nodes,
                            edge.relation.value.as_str(),
                            &edge.target,
                            constraint.target.value.as_str(),
                            "target",
                        ),
                    );
                    found
                }
            }
        }
    }
}

fn borrow_all(items: &Vec<Spanned<String>>) -> (found: Vec<&Spanned<String>>)
    ensures
        crate::order::shown(found@) == views(items@),
        found@.len() == items@.len(),
{
    let mut found: Vec<&Spanned<String>> = Vec::new();
    let mut at: usize = 0;
    while at < items.len()
        invariant
            at <= items@.len(),
            found@.len() == at,
            forall|i: int| 0 <= i < at ==> *(#[trigger] found@[i]) == items@[i],
        decreases items@.len() - at,
    {
        found.push(&items[at]);
        at = at + 1;
    }
    assert(crate::order::shown(found@) =~= views(items@));
    found
}

fn check_declarations(file: &SourceFile) -> (found: Vec<Diagnostic>)
    ensures
        views(found@) == node_findings(file@.schemas, file@.nodes, file@.nodes.len() as int)
            + edge_findings(file@, file@.edges.len() as int),
{
    let ghost model = file@;
    let mut ids: Vec<String> = Vec::new();
    let mut found = no_findings();
    assert(views(ids@) =~= Seq::<Seq<char>>::empty());
    let mut at: usize = 0;
    while at < file.nodes.len()
        invariant
            at <= file.nodes@.len(),
            model == file@,
            views(ids@) == node_ids(model.nodes, at as int),
            views(found@) == node_findings(model.schemas, model.nodes, at as int),
        decreases file.nodes@.len() - at,
    {
        let node = &file.nodes[at];
        assert(model.nodes[at as int] == node@);
        let mut repeated = false;
        let mut back: usize = 0;
        while back < at
            invariant
                back <= at < file.nodes@.len(),
                model == file@,
                repeated == node_declared(model.nodes, back as int, node@.name.value),
            decreases at - back,
        {
            assert(model.nodes[back as int] == file.nodes@[back as int]@);
            if same(file.nodes[back].name.value.as_str(), node.name.value.as_str()) {
                repeated = true;
            }
            back = back + 1;
        }
        take(
            &mut found,
            report_if(
                repeated,
                DiagnosticCode::NostDuplicateDeclarationName,
                node.name.range,
                around(
                    "the name ",
                    node.name.value.as_str(),
                    " is declared more than once in this file",
                ).as_str(),
            ),
        );
        let named = borrow_all(&node.schemas);
        let more = check_record(
            &file.schemas,
            &named,
            &node.record,
            node.name.range,
            &mut ids,
            true,
        );
        take(&mut found, more);
        at = at + 1;
    }
    let mut last = no_findings();
    let mut at: usize = 0;
    while at < file.edges.len()
        invariant
            at <= file.edges@.len(),
            model == file@,
            views(ids@) == edge_ids(model, at as int),
            views(last@) == edge_findings(model, at as int),
        decreases file.edges@.len() - at,
    {
        let edge = &file.edges[at];
        assert(model.edges[at as int] == edge@);
        let mut named: Vec<&Spanned<String>> = Vec::new();
        named.push(&edge.relation);
        assert(crate::order::shown(named@) =~= seq![edge@.relation]);
        let more = check_record(
            &file.schemas,
            &named,
            &edge.record,
            edge.relation.range,
            &mut ids,
            false,
        );
        take(&mut last, more);
        take(&mut last, check_edge_endpoint_constraint(&file.schemas, &file.nodes, edge));
        at = at + 1;
    }
    take(&mut found, last);
    found
}

// -- Endpoints ---------------------------------------------------------------------

/// What is wrong with an endpoint by itself.
pub open spec fn endpoint_findings(file: SourceFileModel, endpoint: EndpointModel) -> Seq<
    DiagnosticModel,
> {
    match endpoint {
        EndpointModel::Local(name) => when(
            find_node(file.nodes, name.value, 0) is None,
            DiagnosticCode::NostUnresolvedEndpoint,
            name.range,
            "the endpoint "@ + name.value
                + " resolves to no declaration, so a Placeholder is created"@,
        ),
        EndpointModel::Aliased { alias, .. } => when(
            !claims_alias(file.links, file.links.len() as int, alias.value),
            DiagnosticCode::NostUnknownLinkAlias,
            alias.range,
            "no link declares the alias "@ + alias.value,
        ),
        EndpointModel::Locator { locator, .. } => when(
            !links_to(file.links, file.links.len() as int, locator.value),
            DiagnosticCode::NostUnknownLinkAlias,
            locator.range,
            "no link declares the locator "@ + locator.value,
        ),
    }
}

/// What is wrong with the endpoints of the first `count` edges.
pub open spec fn endpoints_findings(file: SourceFileModel, count: int) -> Seq<DiagnosticModel>
    decreases count,
{
    if count <= 0 {
        Seq::empty()
    } else {
        endpoints_findings(file, count - 1) + endpoint_findings(file, file.edges[count - 1].source)
            + endpoint_findings(file, file.edges[count - 1].target)
    }
}

fn check_endpoint(file: &SourceFile, endpoint: &Endpoint) -> (found: Vec<Diagnostic>)
    ensures
        views(found@) == endpoint_findings(file@, endpoint@),
{
    match endpoint {
        Endpoint::Local(name) => report_if(
            node_index(&file.nodes, name.value.as_str()).is_none(),
            DiagnosticCode::NostUnresolvedEndpoint,
            name.range,
            around(
                "the endpoint ",
                name.value.as_str(),
                " resolves to no declaration, so a Placeholder is created",
            ).as_str(),
        ),
        Endpoint::Aliased { alias, .. } => {
            let mut message = "no link declares the alias ".to_owned();
            message.append(alias.value.as_str());
            report_if(
                !has_alias(&file.links, file.links.len(), alias.value.as_str()),
                DiagnosticCode::NostUnknownLinkAlias,
                alias.range,
                message.as_str(),
            )
        }
        Endpoint::Locator { locator, .. } => {
            let mut message = "no link declares the locator ".to_owned();
            message.append(locator.value.as_str());
            report_if(
                !has_link(&file.links, file.links.len(), locator.value.as_str()),
                DiagnosticCode::NostUnknownLinkAlias,
                locator.range,
                message.as_str(),
            )
        }
    }
}

fn check_endpoints(file: &SourceFile) -> (found: Vec<Diagnostic>)
    ensures
        views(found@) == endpoints_findings(file@, file@.edges.len() as int),
{
    let ghost model = file@;
    let mut found = no_findings();
    let mut at: usize = 0;
    while at < file.edges.len()
        invariant
            at <= file.edges@.len(),
            model == file@,
            views(found@) == endpoints_findings(model, at as int),
        decreases file.edges@.len() - at,
    {
        assert(model.edges[at as int] == file.edges@[at as int]@);
        take(&mut found, check_endpoint(file, &file.edges[at].source));
        take(&mut found, check_endpoint(file, &file.edges[at].target));
        at = at + 1;
    }
    found
}

// -- Contributions -----------------------------------------------------------------

/// Whether a key takes a quoted string in an evidence block.
pub open spec fn text_key(key: Seq<char>) -> bool {
    ||| key == "source"@
    ||| key == "digest"@
    ||| key == "revision"@
    ||| key == "path"@
    ||| key == "range"@
    ||| key == "producer"@
    ||| key == "producer_version"@
}

/// Whether a key is an evidence key.
pub open spec fn evidence_key(key: Seq<char>) -> bool {
    text_key(key) || key == "method"@ || key == "confidence"@
}

fn is_text_key(key: &str) -> (answer: bool)
    ensures
        answer == text_key(key@),
{
    same(key, "source") || same(key, "digest") || same(key, "revision") || same(key, "path") || same(
        key,
        "range",
    ) || same(key, "producer") || same(key, "producer_version")
}

/// Whether a word is a method.
pub open spec fn known_method(name: Seq<char>) -> bool {
    name == "deterministic"@ || name == "ai_inferred"@ || name == "user_declared"@
}

/// What is wrong with a confidence.
pub open spec fn confidence_findings(
    name: Seq<char>,
    score: Option<Seq<char>>,
    range: SourceRange,
) -> Seq<DiagnosticModel> {
    if name == "extracted"@ {
        when(
            score is Some,
            DiagnosticCode::NostInvalidEvidence,
            range,
            "`extracted` carries no score, because a fact read from source has nothing to weigh"@,
        )
    } else if name == "inferred"@ || name == "ambiguous"@ {
        match score {
            None => seq![
                finding(
                    DiagnosticCode::NostInvalidEvidence,
                    range,
                    "`"@ + name + "` requires a score, written `"@ + name + "(0.5)`"@,
                ),
            ],
            Some(text) => when(
                !(read_double(text) matches Some(bits) && unit_interval(bits)),
                DiagnosticCode::NostInvalidEvidence,
                range,
                "a confidence score must be within 0.0 through 1.0, found "@ + text,
            ),
        }
    } else {
        seq![
            finding(
                DiagnosticCode::NostInvalidEvidence,
                range,
                "`"@ + name
                    + "` is not a confidence; expected extracted, inferred, or ambiguous"@,
            ),
        ]
    }
}

/// What is wrong with the value of an evidence key.
pub open spec fn evidence_value_findings(
    key: Seq<char>,
    value: EvidenceValueModel,
    range: SourceRange,
) -> Seq<DiagnosticModel> {
    match value {
        EvidenceValueModel::Text(_) => when(
            !text_key(key),
            DiagnosticCode::NostInvalidEvidence,
            range,
            "`"@ + key + "` takes a bare word, not a quoted string"@,
        ),
        EvidenceValueModel::Enumerator { name, score } => if text_key(key) {
            seq![
                finding(
                    DiagnosticCode::NostInvalidEvidence,
                    range,
                    "`"@ + key + "` takes a quoted string"@,
                ),
            ]
        } else if key == "method"@ {
            when(
                !known_method(name),
                DiagnosticCode::NostInvalidEvidence,
                range,
                "`"@ + name
                    + "` is not a method; expected one of [\"deterministic\", \"ai_inferred\", \"user_declared\"]"@,
            ) + when(
                score is Some,
                DiagnosticCode::NostInvalidEvidence,
                range,
                "a method carries no score"@,
            )
        } else if key == "confidence"@ {
            confidence_findings(name, score, range)
        } else {
            Seq::empty()
        },
    }
}

/// Whether one of the first `count` fields has a key.
pub open spec fn states(fields: Seq<EvidenceFieldModel>, count: int, key: Seq<char>) -> bool {
    exists|i: int| 0 <= i < count && (#[trigger] fields[i]).key.value == key
}

/// What is wrong with the first `count` fields of an evidence block.
pub open spec fn evidence_field_findings(fields: Seq<EvidenceFieldModel>, count: int) -> Seq<
    DiagnosticModel,
>
    decreases count,
{
    if count <= 0 {
        Seq::empty()
    } else {
        let field = fields[count - 1];
        evidence_field_findings(fields, count - 1) + (if !evidence_key(field.key.value) {
            seq![
                finding(
                    DiagnosticCode::NostInvalidEvidence,
                    field.key.range,
                    "`"@ + field.key.value + "` is not an evidence key"@,
                ),
            ]
        } else {
            when(
                states(fields, count - 1, field.key.value),
                DiagnosticCode::NostDuplicatePropertyKey,
                field.key.range,
                "the evidence key "@ + field.key.value + " is set more than once in this block"@,
            ) + evidence_value_findings(field.key.value, field.value.value, field.value.range)
        })
    }
}

/// What is said of a key an evidence block must state.
pub open spec fn missing_key(block: EvidenceBlockModel, key: Seq<char>) -> Seq<DiagnosticModel> {
    when(
        !states(block.fields, block.fields.len() as int, key),
        DiagnosticCode::NostInvalidEvidence,
        block.range,
        "an evidence block must state `"@ + key + "`"@,
    )
}

/// What is said of a producer key that no owner supplies.
pub open spec fn missing_producer(block: EvidenceBlockModel, key: Seq<char>) -> Seq<
    DiagnosticModel,
> {
    when(
        !states(block.fields, block.fields.len() as int, key),
        DiagnosticCode::NostInvalidEvidence,
        block.range,
        "`"@ + key
            + "` is required here, because only an `analyzer` owner supplies one to inherit"@,
    )
}

/// What is wrong with an evidence block.
pub open spec fn evidence_findings(block: EvidenceBlockModel, inherits: bool) -> Seq<
    DiagnosticModel,
> {
    evidence_field_findings(block.fields, block.fields.len() as int) + missing_key(
        block,
        "source"@,
    ) + missing_key(block, "digest"@) + missing_key(block, "method"@) + missing_key(
        block,
        "confidence"@,
    ) + (if inherits {
        Seq::empty()
    } else {
        missing_producer(block, "producer"@) + missing_producer(block, "producer_version"@)
    })
}

/// What is wrong with the first `count` evidence blocks.
pub open spec fn evidence_blocks_findings(
    blocks: Seq<EvidenceBlockModel>,
    count: int,
    inherits: bool,
) -> Seq<DiagnosticModel>
    decreases count,
{
    if count <= 0 {
        Seq::empty()
    } else {
        evidence_blocks_findings(blocks, count - 1, inherits) + evidence_findings(
            blocks[count - 1],
            inherits,
        )
    }
}

/// Why a text is no source unit identifier, if it is none.
pub open spec fn unit_fault(text: Seq<char>) -> Option<Seq<char>> {
    if SourceUnitId::has_prefix(text) && canonical(text.skip(2)) {
        None
    } else if SourceUnitId::has_prefix(text) {
        Some(body_fault(text.skip(2)).spec_message())
    } else {
        Some(IdError::MissingPrefix { expected: "u_" }.spec_message())
    }
}

/// What is wrong with a contribution block. Only a user contribution may omit evidence,
/// because the user is the evidence.
pub open spec fn contribution_findings(block: ContributionBlockModel) -> Seq<DiagnosticModel> {
    (match block.unit {
        None => Seq::empty(),
        Some(unit) => match unit_fault(unit.value) {
            None => Seq::empty(),
            Some(wrong) => seq![
                finding(
                    DiagnosticCode::NostInvalidEvidence,
                    unit.range,
                    unit.value + " is not a valid source unit identifier: "@ + wrong,
                ),
            ],
        },
    }) + when(
        block.evidence.len() == 0 && block.owner.kind() != OwnerKind::User,
        DiagnosticCode::NostInvalidEvidence,
        block.owner.place(),
        "an `"@ + block.owner.word() + "` contribution must carry evidence"@,
    ) + evidence_blocks_findings(
        block.evidence,
        block.evidence.len() as int,
        block.owner is Analyzer,
    )
}

/// What is wrong with the first `count` contribution blocks.
pub open spec fn contributions_findings(
    blocks: Seq<ContributionBlockModel>,
    count: int,
) -> Seq<DiagnosticModel>
    decreases count,
{
    if count <= 0 {
        Seq::empty()
    } else {
        contributions_findings(blocks, count - 1) + contribution_findings(blocks[count - 1])
    }
}

/// What is wrong with the contributions of a record.
pub open spec fn ownership_findings(record: RecordBodyModel) -> Seq<DiagnosticModel> {
    contributions_findings(record.contributions, record.contributions.len() as int)
}

/// What is wrong with the contributions of the first `count` nodes.
pub open spec fn node_ownership(nodes: Seq<NodeDeclarationModel>, count: int) -> Seq<
    DiagnosticModel,
>
    decreases count,
{
    if count <= 0 {
        Seq::empty()
    } else {
        node_ownership(nodes, count - 1) + ownership_findings(nodes[count - 1].record)
    }
}

/// What is wrong with the contributions of the first `count` edges.
pub open spec fn edge_ownership(edges: Seq<EdgeDeclarationModel>, count: int) -> Seq<
    DiagnosticModel,
>
    decreases count,
{
    if count <= 0 {
        Seq::empty()
    } else {
        edge_ownership(edges, count - 1) + ownership_findings(edges[count - 1].record)
    }
}

fn check_confidence(name: &str, score: &Option<String>, range: SourceRange) -> (found: Vec<
    Diagnostic,
>)
    ensures
        views(found@) == confidence_findings(
            name@,
            crate::text::view_of(*score),
            range,
        ),
{
    if same(name, "extracted") {
        return report_if(
            score.is_some(),
            DiagnosticCode::NostInvalidEvidence,
            range,
            "`extracted` carries no score, because a fact read from source has nothing to weigh",
        );
    }
    if same(name, "inferred") || same(name, "ambiguous") {
        return match score {
            None => {
                let mut message = around("`", name, "` requires a score, written `");
                message.append(name);
                message.append("(0.5)`");
                one_finding(DiagnosticCode::NostInvalidEvidence, range, message.as_str())
            }
            Some(text) => {
                let within = match parse_double(text.as_str()) {
                    Some(bits) => in_unit_interval(bits),
                    None => false,
                };
                let mut message =
                    "a confidence score must be within 0.0 through 1.0, found ".to_owned();
                message.append(text.as_str());
                report_if(
                    !within,
                    DiagnosticCode::NostInvalidEvidence,
                    range,
                    message.as_str(),
                )
            }
        };
    }
    one_finding(
        DiagnosticCode::NostInvalidEvidence,
        range,
        around(
            "`",
            name,
            "` is not a confidence; expected extracted, inferred, or ambiguous",
        ).as_str(),
    )
}

fn check_evidence_value(key: &str, value: &EvidenceValue, range: SourceRange) -> (found: Vec<
    Diagnostic,
>)
    ensures
        views(found@) == evidence_value_findings(key@, value@, range),
{
    match value {
        EvidenceValue::Text(_) => report_if(
            !is_text_key(key),
            DiagnosticCode::NostInvalidEvidence,
            range,
            around("`", key, "` takes a bare word, not a quoted string").as_str(),
        ),
        EvidenceValue::Enumerator { name, score } => {
            if is_text_key(key) {
                return one_finding(
                    DiagnosticCode::NostInvalidEvidence,
                    range,
                    around("`", key, "` takes a quoted string").as_str(),
                );
            }
            if same(key, "method") {
                let known = same(name.as_str(), "deterministic") || same(
                    name.as_str(),
                    "ai_inferred",
                ) || same(name.as_str(), "user_declared");
                let mut found = report_if(
                    !known,
                    DiagnosticCode::NostInvalidEvidence,
                    range,
                    around(
                        "`",
                        name.as_str(),
                        "` is not a method; expected one of [\"deterministic\", \"ai_inferred\", \"user_declared\"]",
                    ).as_str(),
                );
                take(
                    &mut found,
                    report_if(
                        score.is_some(),
                        DiagnosticCode::NostInvalidEvidence,
                        range,
                        "a method carries no score",
                    ),
                );
                return found;
            }
            if same(key, "confidence") {
                return check_confidence(name.as_str(), score, range);
            }
            no_findings()
        }
    }
}

fn is_stated(block: &EvidenceBlock, count: usize, key: &str) -> (answer: bool)
    requires
        count <= block.fields@.len(),
    ensures
        answer == states(block@.fields, count as int, key@),
{
    let ghost models = block@.fields;
    let mut at: usize = 0;
    while at < count
        invariant
            at <= count <= block.fields@.len(),
            models == block@.fields,
            !states(models, at as int, key@),
        decreases count - at,
    {
        assert(models[at as int] == block.fields@[at as int]@);
        if same(block.fields[at].key.value.as_str(), key) {
            return true;
        }
        at = at + 1;
    }
    false
}

fn check_evidence_fields(block: &EvidenceBlock) -> (found: Vec<Diagnostic>)
    ensures
        views(found@) == evidence_field_findings(block@.fields, block@.fields.len() as int),
{
    let ghost models = block@.fields;
    let mut found = no_findings();
    let mut at: usize = 0;
    while at < block.fields.len()
        invariant
            at <= block.fields@.len(),
            models == block@.fields,
            views(found@) == evidence_field_findings(models, at as int),
        decreases block.fields@.len() - at,
    {
        let field = &block.fields[at];
        let key = field.key.value.as_str();
        assert(models[at as int] == field@);
        if !(is_text_key(key) || same(key, "method") || same(key, "confidence")) {
            take(
                &mut found,
                one_finding(
                    DiagnosticCode::NostInvalidEvidence,
                    field.key.range,
                    around("`", key, "` is not an evidence key").as_str(),
                ),
            );
        } else {
            let mut more = report_if(
                is_stated(block, at, key),
                DiagnosticCode::NostDuplicatePropertyKey,
                field.key.range,
                around("the evidence key ", key, " is set more than once in this block").as_str(),
            );
            take(&mut more, check_evidence_value(key, &field.value.value, field.value.range));
            take(&mut found, more);
        }
        at = at + 1;
    }
    found
}

fn check_stated(block: &EvidenceBlock, key: &str) -> (found: Vec<Diagnostic>)
    ensures
        views(found@) == missing_key(block@, key@),
{
    report_if(
        !is_stated(block, block.fields.len(), key),
        DiagnosticCode::NostInvalidEvidence,
        block.range,
        around("an evidence block must state `", key, "`").as_str(),
    )
}

fn check_producer(block: &EvidenceBlock, key: &str) -> (found: Vec<Diagnostic>)
    ensures
        views(found@) == missing_producer(block@, key@),
{
    report_if(
        !is_stated(block, block.fields.len(), key),
        DiagnosticCode::NostInvalidEvidence,
        block.range,
        around(
            "`",
            key,
            "` is required here, because only an `analyzer` owner supplies one to inherit",
        ).as_str(),
    )
}

fn check_evidence(block: &EvidenceBlock, inherits: bool) -> (found: Vec<Diagnostic>)
    ensures
        views(found@) == evidence_findings(block@, inherits),
{
    let mut found = check_evidence_fields(block);
    take(&mut found, check_stated(block, "source"));
    take(&mut found, check_stated(block, "digest"));
    take(&mut found, check_stated(block, "method"));
    take(&mut found, check_stated(block, "confidence"));
    if inherits {
        assert(views(found@) =~= views(found@) + Seq::<DiagnosticModel>::empty());
    } else {
        let mut more = check_producer(block, "producer");
        take(&mut more, check_producer(block, "producer_version"));
        take(&mut found, more);
    }
    found
}

fn check_unit(block: &ContributionBlock) -> (found: Vec<Diagnostic>)
    ensures
        views(found@) == (match block@.unit {
            None => Seq::empty(),
            Some(unit) => match unit_fault(unit.value) {
                None => Seq::empty(),
                Some(wrong) => seq![
                    finding(
                        DiagnosticCode::NostInvalidEvidence,
                        unit.range,
                        unit.value + " is not a valid source unit identifier: "@ + wrong,
                    ),
                ],
            },
        }),
{
    match &block.unit {
        None => no_findings(),
        Some(unit) => match SourceUnitId::from_str(unit.value.as_str()) {
            Ok(_) => no_findings(),
            Err(error) => {
                let mut message = unit.value.clone();
                message.append(" is not a valid source unit identifier: ");
                message.append(error.message().as_str());
                one_finding(DiagnosticCode::NostInvalidEvidence, unit.range, message.as_str())
            }
        },
    }
}

fn check_contribution(block: &ContributionBlock) -> (found: Vec<Diagnostic>)
    ensures
        views(found@) == contribution_findings(block@),
{
    let mut found = check_unit(block);
    take(
        &mut found,
        report_if(
            block.evidence.len() == 0 && block.owner.kind() != OwnerKind::User,
            DiagnosticCode::NostInvalidEvidence,
            block.owner.range(),
            around("an `", block.owner.keyword(), "` contribution must carry evidence").as_str(),
        ),
    );
    let inherits = match &block.owner {
        OwnerDeclaration::Analyzer { .. } => true,
        _ => false,
    };
    let ghost models = block@.evidence;
    let mut last = no_findings();
    let mut at: usize = 0;
    while at < block.evidence.len()
        invariant
            at <= block.evidence@.len(),
            models == block@.evidence,
            views(last@) == evidence_blocks_findings(models, at as int, inherits),
        decreases block.evidence@.len() - at,
    {
        assert(models[at as int] == block.evidence@[at as int]@);
        take(&mut last, check_evidence(&block.evidence[at], inherits));
        at = at + 1;
    }
    take(&mut found, last);
    found
}

fn check_ownership(record: &RecordBody) -> (found: Vec<Diagnostic>)
    ensures
        views(found@) == ownership_findings(record@),
{
    let ghost models = record@.contributions;
    let mut found = no_findings();
    let mut at: usize = 0;
    while at < record.contributions.len()
        invariant
            at <= record.contributions@.len(),
            models == record@.contributions,
            views(found@) == contributions_findings(models, at as int),
        decreases record.contributions@.len() - at,
    {
        assert(models[at as int] == record.contributions@[at as int]@);
        take(&mut found, check_contribution(&record.contributions[at]));
        at = at + 1;
    }
    found
}

fn check_contributions(file: &SourceFile) -> (found: Vec<Diagnostic>)
    ensures
        views(found@) == node_ownership(file@.nodes, file@.nodes.len() as int) + edge_ownership(
            file@.edges,
            file@.edges.len() as int,
        ),
{
    let ghost model = file@;
    let mut found = no_findings();
    let mut at: usize = 0;
    while at < file.nodes.len()
        invariant
            at <= file.nodes@.len(),
            model == file@,
            views(found@) == node_ownership(model.nodes, at as int),
        decreases file.nodes@.len() - at,
    {
        assert(model.nodes[at as int] == file.nodes@[at as int]@);
        take(&mut found, check_ownership(&file.nodes[at].record));
        at = at + 1;
    }
    let mut last = no_findings();
    let mut at: usize = 0;
    while at < file.edges.len()
        invariant
            at <= file.edges@.len(),
            model == file@,
            views(last@) == edge_ownership(model.edges, at as int),
        decreases file.edges@.len() - at,
    {
        assert(model.edges[at as int] == file.edges@[at as int]@);
        take(&mut last, check_ownership(&file.edges[at].record));
        at = at + 1;
    }
    take(&mut found, last);
    found
}

// -- Files -------------------------------------------------------------------------

/// Every semantic rule a file breaks.
pub open spec fn findings(file: SourceFileModel) -> Seq<DiagnosticModel> {
    when(
        file.version.value != 2,
        DiagnosticCode::NostVersionUnsupported,
        file.version.range,
        "language version "@ + digits_of(file.version.value as nat)
            + " is not supported; this build supports [2]"@,
    ) + link_findings(file.links, file.links.len() as int) + schema_findings(
        file.schemas,
        file.schemas.len() as int,
    ) + (node_findings(file.schemas, file.nodes, file.nodes.len() as int) + edge_findings(
        file,
        file.edges.len() as int,
    )) + endpoints_findings(file, file.edges.len() as int) + (node_ownership(
        file.nodes,
        file.nodes.len() as int,
    ) + edge_ownership(file.edges, file.edges.len() as int))
}

/// Reports every semantic rule the file breaks.
///
/// An empty result means the file satisfies every rule decidable without opening the linked
/// sources it declares.
pub fn validate(file: &SourceFile) -> (found: Vec<Diagnostic>)
    ensures
        views(found@) == findings(file@),
{
    let mut message = "language version ".to_owned();
    write_digits(&mut message, file.version.value as u64);
    message.append(" is not supported; this build supports [2]");
    let mut found = report_if(
        file.version.value != LANGUAGE_VERSION,
        DiagnosticCode::NostVersionUnsupported,
        file.version.range,
        message.as_str(),
    );
    take(&mut found, check_links(&file.links));
    take(&mut found, check_schemas(&file.schemas));
    take(&mut found, check_declarations(file));
    take(&mut found, check_endpoints(file));
    take(&mut found, check_contributions(file));
    found
}

/// Reports whether any diagnostic in `found` is an error rather than a warning.
///
/// A file with warnings only is still usable, which is why this distinction exists.
pub fn has_errors(found: &[Diagnostic]) -> (answer: bool)
    ensures
        answer == exists|i: int|
            0 <= i < found@.len() && (#[trigger] found@[i])@.severity == Severity::Error,
{
    let mut at: usize = 0;
    while at < found.len()
        invariant
            at <= found@.len(),
            forall|i: int| 0 <= i < at ==> (#[trigger] found@[i])@.severity != Severity::Error,
        decreases found@.len() - at,
    {
        if found[at].severity == Severity::Error {
            assert(found@[at as int]@.severity == Severity::Error);
            return true;
        }
        at = at + 1;
    }
    false
}

} // verus!
