//! What the checks of a source file report, and where.

use crate::diagnostic::DiagnosticCode;
use crate::diagnostic::DiagnosticModel;
use crate::evidence::SourceRange;
use crate::nost::validate::claims_alias;
use crate::nost::validate::conflicts_of;
use crate::nost::validate::constraint_findings;
use crate::nost::validate::endpoint_findings;
use crate::nost::validate::endpoints_findings;
use crate::nost::validate::field_findings;
use crate::nost::validate::find_node;
use crate::nost::format::find_property;
use crate::nost::validate::find_rule;
use crate::nost::validate::find_schema;
use crate::nost::validate::link_findings;
use crate::nost::validate::property_findings;
use crate::nost::validate::record_findings;
use crate::nost::validate::rule_findings;
use crate::nost::validate::rules_findings;
use crate::nost::validate::rules_of;
use crate::nost::validate::rules_with;
use crate::nost::validate::scalar_matches;
use crate::nost::validate::schema_findings;
use crate::nost::validate::side_findings;
use crate::nost::validate::value_matches;
use crate::nost::validate::FieldRule;
use crate::nost::validate::FieldRuleModel;
use crate::nost::EdgeDeclarationModel;
use crate::nost::EndpointModel;
use crate::schema::FieldType;
use crate::nost::LinkDeclarationModel;
use crate::nost::NodeDeclarationModel;
use crate::nost::PropertyModel;
use crate::nost::RecordBodyModel;
use crate::schema::ScalarType;
use crate::nost::SchemaDeclarationModel;
use crate::nost::SchemaFieldModel;
use crate::nost::SourceFileModel;
use crate::nost::Spanned;
use crate::nost::ValueModel;
use crate::order::sorted;
use crate::order::sorted_contains;
use vstd::prelude::*;

verus! {

/// Whether a rule is reported at a place.
pub open spec fn reports(
    found: Seq<DiagnosticModel>,
    code: DiagnosticCode,
    range: SourceRange,
) -> bool {
    exists|i: int|
        0 <= i < found.len() && (#[trigger] found[i]).code == code && found[i].range == Some(range)
}

pub proof fn both_report(
    left: Seq<DiagnosticModel>,
    right: Seq<DiagnosticModel>,
    code: DiagnosticCode,
    range: SourceRange,
)
    ensures
        reports(left + right, code, range) <==> reports(left, code, range) || reports(
            right,
            code,
            range,
        ),
{
    let all = left + right;
    if reports(left, code, range) {
        let i = choose|i: int|
            0 <= i < left.len() && (#[trigger] left[i]).code == code && left[i].range == Some(range);
        assert(all[i] == left[i]);
    }
    if reports(right, code, range) {
        let i = choose|i: int|
            0 <= i < right.len() && (#[trigger] right[i]).code == code && right[i].range == Some(range);
        assert(all[left.len() + i] == right[i]);
    }
    if reports(all, code, range) {
        let i = choose|i: int|
            0 <= i < all.len() && (#[trigger] all[i]).code == code && all[i].range == Some(range);
        if i < left.len() {
            assert(all[i] == left[i]);
        } else {
            assert(all[i] == right[i - left.len()]);
        }
    }
}

pub proof fn one_reports(
    holds: bool,
    code: DiagnosticCode,
    range: SourceRange,
    message: Seq<char>,
    wanted: DiagnosticCode,
    place: SourceRange,
)
    ensures
        reports(crate::nost::validate::when(holds, code, range, message), wanted, place) <==> holds && code == wanted
            && range == place,
{
    let found = crate::nost::validate::when(holds, code, range, message);
    if holds {
        assert(found[0].code == code && found[0].range == Some(range));
    }
}

// -- Types -------------------------------------------------------------------------

/// No value has two scalar types, and each type is that of one kind of value alone. A list has
/// none.
pub proof fn a_value_has_one_type(value: ValueModel, s: ScalarType, t: ScalarType)
    ensures
        scalar_matches(value, s) && scalar_matches(value, t) ==> s == t,
        scalar_matches(value, ScalarType::Boolean) <==> value is Boolean,
        scalar_matches(value, ScalarType::Integer) <==> value is Integer,
        scalar_matches(value, ScalarType::Double) <==> value is Float,
        scalar_matches(value, ScalarType::String) <==> value is String,
        scalar_matches(value, ScalarType::Bytes) <==> value is Bytes,
        scalar_matches(value, ScalarType::DateTime) <==> value is DateTime,
        value is List ==> !scalar_matches(value, s),
{
}

/// A field of a list type takes lists of that type alone, and a field of another type no list.
pub proof fn a_list_has_a_list_type(value: ValueModel, declared: FieldType)
    ensures
        value_matches(value, declared) ==> (declared.array <==> value is List),
        declared.array ==> (value_matches(value, declared) <==> (value matches ValueModel::List(items)
            && forall|i: int|
            0 <= i < items.len() ==> scalar_matches((#[trigger] items[i]).value, declared.scalar))),
        !declared.array ==> value_matches(value, declared) == scalar_matches(
            value,
            declared.scalar,
        ),
{
}

/// Whether a property is the first with a key.
pub open spec fn is_first(properties: Seq<PropertyModel>, key: Seq<char>, k: int) -> bool {
    &&& 0 <= k < properties.len()
    &&& properties[k].key.value == key
    &&& forall|j: int| 0 <= j < k ==> (#[trigger] properties[j]).key.value != key
}

/// Whether no property has a key.
pub open spec fn is_unset(properties: Seq<PropertyModel>, key: Seq<char>) -> bool {
    forall|j: int| 0 <= j < properties.len() ==> (#[trigger] properties[j]).key.value != key
}

proof fn first_property(properties: Seq<PropertyModel>, key: Seq<char>, at: int)
    requires
        0 <= at <= properties.len(),
        forall|j: int| 0 <= j < at ==> (#[trigger] properties[j]).key.value != key,
    ensures
        match find_property(properties, key, at) {
            Some(k) => is_first(properties, key, k),
            None => is_unset(properties, key),
        },
    decreases properties.len() - at,
{
    if at < properties.len() && properties[at].key.value != key {
        first_property(properties, key, at + 1);
    }
}

/// By a rule a record is in order exactly where it holds the key with a value of the declared
/// type, or lacks it and need not have it. A wrong value is reported where it stands, and a
/// missing one at the head of the record.
pub proof fn a_rule_reports_what_breaks_it(
    rule: FieldRuleModel,
    properties: Seq<PropertyModel>,
    head: SourceRange,
    k: int,
)
    ensures
        is_first(properties, rule.key, k) && !value_matches(properties[k].value.value, rule.declared)
            ==> reports(
            rule_findings(rule, properties, head),
            DiagnosticCode::NostSchemaViolation,
            properties[k].value.range,
        ),
        is_first(properties, rule.key, k) && value_matches(properties[k].value.value, rule.declared)
            ==> rule_findings(rule, properties, head).len() == 0,
        is_unset(properties, rule.key) && rule.required ==> reports(
            rule_findings(rule, properties, head),
            DiagnosticCode::NostSchemaViolation,
            head,
        ),
        is_unset(properties, rule.key) && !rule.required ==> rule_findings(
            rule,
            properties,
            head,
        ).len() == 0,
{
    first_property(properties, rule.key, 0);
    let found = rule_findings(rule, properties, head);
    if is_first(properties, rule.key, k) {
        let m = find_property(properties, rule.key, 0);
        if m is Some {
            if m->0 < k {
                assert(properties[m->0].key.value != rule.key);
            }
            if k < m->0 {
                assert(properties[k].key.value != rule.key);
            }
        } else {
            assert(properties[k].key.value != rule.key);
        }
    }
    if found.len() > 0 {
        assert(found[0].code == DiagnosticCode::NostSchemaViolation);
    }
    if is_unset(properties, rule.key) {
        if let Some(m) = find_property(properties, rule.key, 0) {
            assert(properties[m].key.value != rule.key);
        }
    }
}

proof fn every_rule_reports(
    rules: Seq<FieldRuleModel>,
    count: int,
    properties: Seq<PropertyModel>,
    head: SourceRange,
    code: DiagnosticCode,
    range: SourceRange,
)
    requires
        0 <= count <= rules.len(),
    ensures
        reports(rules_findings(rules, count, properties, head), code, range) <==> exists|i: int|
            0 <= i < count && reports(
                rule_findings(#[trigger] rules[i], properties, head),
                code,
                range,
            ),
    decreases count,
{
    if count > 0 {
        every_rule_reports(rules, count - 1, properties, head, code, range);
        both_report(
            rules_findings(rules, count - 1, properties, head),
            rule_findings(rules[count - 1], properties, head),
            code,
            range,
        );
        if reports(rule_findings(rules[count - 1], properties, head), code, range) {
            assert(rules[count - 1] == rules[count - 1]);
        }
    }
}

// -- Rules -------------------------------------------------------------------------

/// Whether a rule for a key says what is declared of it.
pub open spec fn rules_say(
    rules: Seq<FieldRuleModel>,
    key: Seq<char>,
    declared: FieldType,
    required: bool,
) -> bool {
    exists|i: int| is_rule(rules, i, key, declared, required)
}

/// Whether the rule at a place says what is declared of a key.
pub open spec fn is_rule(
    rules: Seq<FieldRuleModel>,
    i: int,
    key: Seq<char>,
    declared: FieldType,
    required: bool,
) -> bool {
    &&& 0 <= i < rules.len()
    &&& rules[i].key == key
    &&& rules[i].declared == declared
    &&& required ==> rules[i].required
}

pub proof fn first_rule(rules: Seq<FieldRuleModel>, key: Seq<char>, at: int)
    requires
        0 <= at <= rules.len(),
    ensures
        match find_rule(rules, key, at) {
            Some(k) => at <= k < rules.len() && rules[k].key == key && forall|j: int|
                at <= j < k ==> (#[trigger] rules[j]).key != key,
            None => forall|j: int| at <= j < rules.len() ==> (#[trigger] rules[j]).key != key,
        },
    decreases rules.len() - at,
{
    if at < rules.len() && rules[at].key != key {
        first_rule(rules, key, at + 1);
    }
}

pub proof fn rules_stay(
    rules: Seq<FieldRuleModel>,
    fields: Seq<SchemaFieldModel>,
    count: int,
    i: int,
    key: Seq<char>,
    declared: FieldType,
    required: bool,
)
    requires
        0 <= count <= fields.len(),
        is_rule(rules, i, key, declared, required),
    ensures
        is_rule(rules_with(rules, fields, count), i, key, declared, required),
    decreases count,
{
    if count > 0 {
        rules_stay(rules, fields, count - 1, i, key, declared, required);
        first_rule(rules_with(rules, fields, count - 1), fields[count - 1].key.value, 0);
    }
}

proof fn a_field_makes_a_rule(
    rules: Seq<FieldRuleModel>,
    fields: Seq<SchemaFieldModel>,
    count: int,
    k: int,
)
    requires
        0 <= k < count <= fields.len(),
        forall|j: int| 0 <= j < k ==> (#[trigger] fields[j]).key.value != fields[k].key.value,
        forall|j: int| 0 <= j < rules.len() ==> (#[trigger] rules[j]).key != fields[k].key.value,
    ensures
        rules_say(
            rules_with(rules, fields, count),
            fields[k].key.value,
            fields[k].field_type.value,
            !fields[k].optional,
        ),
    decreases count,
{
    let key = fields[k].key.value;
    let declared = fields[k].field_type.value;
    let required = !fields[k].optional;
    let earlier = rules_with(rules, fields, count - 1);
    first_rule(earlier, fields[count - 1].key.value, 0);
    if k < count - 1 {
        a_field_makes_a_rule(rules, fields, count - 1, k);
        let i = choose|i: int| is_rule(earlier, i, key, declared, required);
        assert(is_rule(rules_with(rules, fields, count), i, key, declared, required));
    } else {
        no_rule_yet(rules, fields, k, key);
        assert(is_rule(
            rules_with(rules, fields, count),
            earlier.len() as int,
            key,
            declared,
            required,
        ));
    }
}

proof fn no_rule_yet(
    rules: Seq<FieldRuleModel>,
    fields: Seq<SchemaFieldModel>,
    count: int,
    key: Seq<char>,
)
    requires
        0 <= count <= fields.len(),
        forall|j: int| 0 <= j < count ==> (#[trigger] fields[j]).key.value != key,
        forall|j: int| 0 <= j < rules.len() ==> (#[trigger] rules[j]).key != key,
    ensures
        forall|j: int|
            0 <= j < rules_with(rules, fields, count).len() ==> (#[trigger] rules_with(
                rules,
                fields,
                count,
            )[j]).key != key,
    decreases count,
{
    if count > 0 {
        no_rule_yet(rules, fields, count - 1, key);
        first_rule(rules_with(rules, fields, count - 1), fields[count - 1].key.value, 0);
    }
}

proof fn rules_of_stay(
    schemas: Seq<SchemaDeclarationModel>,
    named: Seq<Spanned<Seq<char>>>,
    less: int,
    count: int,
    i: int,
    key: Seq<char>,
    declared: FieldType,
    required: bool,
)
    requires
        0 <= less <= count <= named.len(),
        is_rule(rules_of(schemas, named, less), i, key, declared, required),
    ensures
        is_rule(rules_of(schemas, named, count), i, key, declared, required),
    decreases count,
{
    if less < count {
        rules_of_stay(schemas, named, less, count - 1, i, key, declared, required);
        last_schema(schemas, schemas.len() as int, named[count - 1].value);
        if let Some(at) = find_schema(schemas, schemas.len() as int, named[count - 1].value) {
            rules_stay(
                rules_of(schemas, named, count - 1),
                schemas[at].fields,
                schemas[at].fields.len() as int,
                i,
                key,
                declared,
                required,
            );
        }
    }
}

/// Whether a schema is the one that a name stands for: the last that is declared with it.
pub open spec fn stands_for(
    schemas: Seq<SchemaDeclarationModel>,
    name: Seq<char>,
    at: int,
) -> bool {
    &&& 0 <= at < schemas.len()
    &&& schemas[at].name.value == name
    &&& forall|j: int| at < j < schemas.len() ==> (#[trigger] schemas[j]).name.value != name
}

proof fn last_schema(schemas: Seq<SchemaDeclarationModel>, count: int, name: Seq<char>)
    requires
        0 <= count <= schemas.len(),
    ensures
        match find_schema(schemas, count, name) {
            Some(k) => 0 <= k < count && schemas[k].name.value == name && forall|j: int|
                k < j < count ==> (#[trigger] schemas[j]).name.value != name,
            None => forall|j: int| 0 <= j < count ==> (#[trigger] schemas[j]).name.value != name,
        },
    decreases count,
{
    if count > 0 && schemas[count - 1].name.value != name {
        last_schema(schemas, count - 1, name);
    }
}

proof fn the_schema_is_found(schemas: Seq<SchemaDeclarationModel>, name: Seq<char>, at: int)
    requires
        stands_for(schemas, name, at),
    ensures
        find_schema(schemas, schemas.len() as int, name) == Some(at),
{
    last_schema(schemas, schemas.len() as int, name);
    if let Some(k) = find_schema(schemas, schemas.len() as int, name) {
        if k < at {
            assert(schemas[at].name.value != name);
        }
        if at < k {
            assert(schemas[k].name.value != name);
        }
    }
}

/// A record whose first schema declares a field is held to that declaration: a value of another
/// kind under that key is reported as a violation where it stands, and so is at the head of the
/// record that a required field is missing.
pub proof fn a_wrong_kind_is_reported(
    schemas: Seq<SchemaDeclarationModel>,
    named: Seq<Spanned<Seq<char>>>,
    record: RecordBodyModel,
    head: SourceRange,
    ids: Seq<Seq<char>>,
    node: bool,
    at: int,
    f: int,
    k: int,
)
    requires
        named.len() > 0,
        stands_for(schemas, named[0].value, at),
        0 <= f < schemas[at].fields.len(),
        forall|j: int|
            0 <= j < f ==> (#[trigger] schemas[at].fields[j]).key.value
                != schemas[at].fields[f].key.value,
    ensures
        ({
            let field = schemas[at].fields[f];
            let found = record_findings(schemas, named, record, head, ids, node);
            &&& is_first(record.properties, field.key.value, k) && !value_matches(
                record.properties[k].value.value,
                field.field_type.value,
            ) ==> reports(
                found,
                DiagnosticCode::NostSchemaViolation,
                record.properties[k].value.range,
            )
            &&& is_unset(record.properties, field.key.value) && !field.optional ==> reports(
                found,
                DiagnosticCode::NostSchemaViolation,
                head,
            )
        }),
{
    let fields = schemas[at].fields;
    let field = fields[f];
    let key = field.key.value;
    let declared = field.field_type.value;
    let required = !field.optional;
    let code = DiagnosticCode::NostSchemaViolation;
    the_schema_is_found(schemas, named[0].value, at);
    assert(rules_of(schemas, named, 0) =~= Seq::empty());
    a_field_makes_a_rule(Seq::empty(), fields, fields.len() as int, f);
    let first = rules_of(schemas, named, 1);
    assert(first == rules_with(Seq::empty(), fields, fields.len() as int));
    let i = choose|i: int| is_rule(first, i, key, declared, required);
    rules_of_stay(schemas, named, 1, named.len() as int, i, key, declared, required);
    let all = rules_of(schemas, named, named.len() as int);
    let rules = sorted::<FieldRule>(all);
    let rule = all[i];
    sorted_contains::<FieldRule>(all, rule);
    assert(all.contains(rule));
    let m = choose|m: int| 0 <= m < rules.len() && rules[m] == rule;
    a_rule_reports_what_breaks_it(rule, record.properties, head, k);
    let range = if is_unset(record.properties, key) {
        head
    } else {
        record.properties[k].value.range
    };
    every_rule_reports(rules, rules.len() as int, record.properties, head, code, range);
    let front = property_findings(record.properties, record.properties.len() as int, ids, node)
        + conflicts_of(schemas, named, named.len() as int);
    both_report(
        front,
        rules_findings(rules, rules.len() as int, record.properties, head),
        code,
        range,
    );
    if is_first(record.properties, key, k) {
        assert(record.properties[k].key.value == key);
    }
    assert(rules[m] == rule);
}

/// A record that holds a value of the declared kind under every key that its rules name, and
/// every one that they require, breaks none of them.
pub proof fn a_right_kind_is_not_reported(
    rules: Seq<FieldRuleModel>,
    count: int,
    properties: Seq<PropertyModel>,
    head: SourceRange,
)
    requires
        0 <= count <= rules.len(),
        forall|i: int, k: int|
            0 <= i < rules.len() && is_first(properties, (#[trigger] rules[i]).key, k)
                ==> value_matches((#[trigger] properties[k]).value.value, rules[i].declared),
        forall|i: int|
            0 <= i < rules.len() && is_unset(properties, (#[trigger] rules[i]).key)
                ==> !rules[i].required,
    ensures
        rules_findings(rules, count, properties, head).len() == 0,
    decreases count,
{
    if count > 0 {
        a_right_kind_is_not_reported(rules, count - 1, properties, head);
        let rule = rules[count - 1];
        first_property(properties, rule.key, 0);
        match find_property(properties, rule.key, 0) {
            Some(k) => {
                assert(properties[k].key.value == rule.key);
                a_rule_reports_what_breaks_it(rule, properties, head, k);
            },
            None => a_rule_reports_what_breaks_it(rule, properties, head, 0),
        }
    }
}

// -- Repeated names ----------------------------------------------------------------

/// A link is reported as a repetition exactly where an earlier one has its locator, and its
/// alias exactly where an earlier one has that.
pub proof fn repeated_links_are_reported(
    links: Seq<LinkDeclarationModel>,
    count: int,
    range: SourceRange,
)
    requires
        0 <= count <= links.len(),
    ensures
        reports(link_findings(links, count), DiagnosticCode::NostDuplicateLinkSource, range)
            <==> exists|i: int, j: int|
            0 <= i < j < count && (#[trigger] links[i]).source.value == (
            #[trigger] links[j]).source.value && links[j].source.range == range,
        reports(link_findings(links, count), DiagnosticCode::NostDuplicateLinkAlias, range)
            <==> exists|i: int, j: int|
            0 <= i < j < count && same_alias(#[trigger] links[i], #[trigger] links[j], range),
    decreases count,
{
    if count > 0 {
        repeated_links_are_reported(links, count - 1, range);
        let link = links[count - 1];
        let source = DiagnosticCode::NostDuplicateLinkSource;
        let alias = DiagnosticCode::NostDuplicateLinkAlias;
        let first = crate::nost::validate::when(
            crate::nost::validate::links_to(links, count - 1, link.source.value),
            source,
            link.source.range,
            "the link "@ + link.source.value + " is declared more than once"@,
        );
        let second = match link.alias {
            None => Seq::empty(),
            Some(name) => crate::nost::validate::when(
                claims_alias(links, count - 1, name.value),
                alias,
                name.range,
                "the link alias "@ + name.value + " is claimed more than once"@,
            ),
        };
        let front = link_findings(links, count - 1);
        both_report(front, first, source, range);
        both_report(front, first, alias, range);
        both_report(front + first, second, source, range);
        both_report(front + first, second, alias, range);
        let holds = crate::nost::validate::links_to(links, count - 1, link.source.value);
        let text = "the link "@ + link.source.value + " is declared more than once"@;
        one_reports(holds, source, link.source.range, text, source, range);
        one_reports(holds, source, link.source.range, text, alias, range);
        if let Some(name) = link.alias {
            let text = "the link alias "@ + name.value + " is claimed more than once"@;
            let holds = claims_alias(links, count - 1, name.value);
            one_reports(holds, alias, name.range, text, source, range);
            one_reports(holds, alias, name.range, text, alias, range);
            if holds {
                let i = choose|i: int|
                    0 <= i < count - 1 && ((#[trigger] links[i]).alias matches Some(other)
                        && other.value == name.value);
                assert(name.range == range ==> same_alias(links[i], links[count - 1], range));
            }
        }
        if holds {
            let i = choose|i: int|
                0 <= i < count - 1 && (#[trigger] links[i]).source.value == link.source.value;
            assert(links[i].source.value == links[count - 1].source.value);
        }
    }
}

/// Whether two links claim one alias, the second of them at a place.
pub open spec fn same_alias(
    first: LinkDeclarationModel,
    second: LinkDeclarationModel,
    range: SourceRange,
) -> bool {
    first.alias matches Some(left) && second.alias matches Some(right) && left.value == right.value
        && right.range == range
}

/// A key is reported as a repetition exactly where an earlier field of its schema has it.
pub proof fn repeated_fields_are_reported(
    fields: Seq<SchemaFieldModel>,
    count: int,
    schema: Seq<char>,
    range: SourceRange,
)
    requires
        0 <= count <= fields.len(),
    ensures
        reports(
            field_findings(fields, count, schema),
            DiagnosticCode::NostDuplicatePropertyKey,
            range,
        ) <==> exists|i: int, j: int|
            0 <= i < j < count && (#[trigger] fields[i]).key.value == (
            #[trigger] fields[j]).key.value && fields[j].key.range == range,
    decreases count,
{
    if count > 0 {
        repeated_fields_are_reported(fields, count - 1, schema, range);
        let code = DiagnosticCode::NostDuplicatePropertyKey;
        let key = fields[count - 1].key;
        let holds = crate::nost::validate::field_declared(fields, count - 1, key.value);
        let text = "the field key "@ + key.value + " is declared more than once in schema "@ + schema;
        both_report(
            field_findings(fields, count - 1, schema),
            crate::nost::validate::when(holds, code, key.range, text),
            code,
            range,
        );
        one_reports(holds, code, key.range, text, code, range);
        if holds {
            let i = choose|i: int| 0 <= i < count - 1 && (#[trigger] fields[i]).key.value == key.value;
            assert(fields[i].key.value == fields[count - 1].key.value);
        }
    }
}

proof fn fields_report_keys_alone(
    fields: Seq<SchemaFieldModel>,
    count: int,
    schema: Seq<char>,
    code: DiagnosticCode,
    range: SourceRange,
)
    requires
        0 <= count <= fields.len(),
        code != DiagnosticCode::NostDuplicatePropertyKey,
    ensures
        !reports(field_findings(fields, count, schema), code, range),
    decreases count,
{
    if count > 0 {
        fields_report_keys_alone(fields, count - 1, schema, code, range);
        let key = fields[count - 1].key;
        let holds = crate::nost::validate::field_declared(fields, count - 1, key.value);
        let text = "the field key "@ + key.value + " is declared more than once in schema "@ + schema;
        let own = DiagnosticCode::NostDuplicatePropertyKey;
        both_report(
            field_findings(fields, count - 1, schema),
            crate::nost::validate::when(holds, own, key.range, text),
            code,
            range,
        );
        one_reports(holds, own, key.range, text, code, range);
    }
}

/// A schema is reported as a repetition exactly where an earlier one has its name.
pub proof fn repeated_schemas_are_reported(
    schemas: Seq<SchemaDeclarationModel>,
    count: int,
    range: SourceRange,
)
    requires
        0 <= count <= schemas.len(),
    ensures
        reports(schema_findings(schemas, count), DiagnosticCode::NostDuplicateSchemaName, range)
            <==> exists|i: int, j: int|
            0 <= i < j < count && (#[trigger] schemas[i]).name.value == (
            #[trigger] schemas[j]).name.value && schemas[j].name.range == range,
    decreases count,
{
    if count > 0 {
        repeated_schemas_are_reported(schemas, count - 1, range);
        let code = DiagnosticCode::NostDuplicateSchemaName;
        let schema = schemas[count - 1];
        let holds = crate::nost::validate::schema_declared(schemas, count - 1, schema.name.value);
        let text = "the schema name "@ + schema.name.value + " is declared more than once"@;
        let front = schema_findings(schemas, count - 1);
        let own = crate::nost::validate::when(holds, code, schema.name.range, text);
        let rest = field_findings(schema.fields, schema.fields.len() as int, schema.name.value);
        both_report(front, own, code, range);
        both_report(front + own, rest, code, range);
        one_reports(holds, code, schema.name.range, text, code, range);
        fields_report_keys_alone(
            schema.fields,
            schema.fields.len() as int,
            schema.name.value,
            code,
            range,
        );
        if holds {
            let i = choose|i: int|
                0 <= i < count - 1 && (#[trigger] schemas[i]).name.value == schema.name.value;
            assert(schemas[i].name.value == schemas[count - 1].name.value);
        }
    }
}

// -- Endpoints ---------------------------------------------------------------------

proof fn first_node(nodes: Seq<NodeDeclarationModel>, name: Seq<char>, at: int)
    requires
        0 <= at <= nodes.len(),
    ensures
        match find_node(nodes, name, at) {
            Some(k) => at <= k < nodes.len() && nodes[k].name.value == name && forall|j: int|
                at <= j < k ==> (#[trigger] nodes[j]).name.value != name,
            None => forall|j: int| at <= j < nodes.len() ==> (#[trigger] nodes[j]).name.value != name,
        },
    decreases nodes.len() - at,
{
    if at < nodes.len() && nodes[at].name.value != name {
        first_node(nodes, name, at + 1);
    }
}

/// Whether a file declares a node of a name.
pub open spec fn declares_node(file: SourceFileModel, name: Seq<char>) -> bool {
    exists|i: int| 0 <= i < file.nodes.len() && (#[trigger] file.nodes[i]).name.value == name
}

/// Whether a file declares a link with an alias.
pub open spec fn declares_alias(file: SourceFileModel, alias: Seq<char>) -> bool {
    exists|i: int|
        0 <= i < file.links.len() && ((#[trigger] file.links[i]).alias matches Some(name)
            && name.value == alias)
}

/// Whether a file declares a link with a locator.
pub open spec fn declares_locator(file: SourceFileModel, locator: Seq<char>) -> bool {
    exists|i: int| 0 <= i < file.links.len() && (#[trigger] file.links[i]).source.value == locator
}

/// An endpoint is in order exactly where what it names is declared: a local one by a node of
/// the file, any other by one of its links. What is not is reported at the name.
pub proof fn an_endpoint_names_what_is_declared(
    file: SourceFileModel,
    endpoint: EndpointModel,
    code: DiagnosticCode,
    range: SourceRange,
)
    ensures
        reports(endpoint_findings(file, endpoint), code, range) <==> match endpoint {
            EndpointModel::Local(name) => !declares_node(file, name.value) && code
                == DiagnosticCode::NostUnresolvedEndpoint && range == name.range,
            EndpointModel::Aliased { alias, .. } => !declares_alias(file, alias.value) && code
                == DiagnosticCode::NostUnknownLinkAlias && range == alias.range,
            EndpointModel::Locator { locator, .. } => !declares_locator(file, locator.value) && code
                == DiagnosticCode::NostUnknownLinkAlias && range == locator.range,
        },
{
    match endpoint {
        EndpointModel::Local(name) => {
            first_node(file.nodes, name.value, 0);
            if let Some(k) = find_node(file.nodes, name.value, 0) {
                assert(file.nodes[k].name.value == name.value);
            }
            one_reports(
                find_node(file.nodes, name.value, 0) is None,
                DiagnosticCode::NostUnresolvedEndpoint,
                name.range,
                "the endpoint "@ + name.value
                    + " resolves to no declaration, so a Placeholder is created"@,
                code,
                range,
            );
        },
        EndpointModel::Aliased { alias, .. } => one_reports(
            !claims_alias(file.links, file.links.len() as int, alias.value),
            DiagnosticCode::NostUnknownLinkAlias,
            alias.range,
            "no link declares the alias "@ + alias.value,
            code,
            range,
        ),
        EndpointModel::Locator { locator, .. } => one_reports(
            !crate::nost::validate::links_to(file.links, file.links.len() as int, locator.value),
            DiagnosticCode::NostUnknownLinkAlias,
            locator.range,
            "no link declares the locator "@ + locator.value,
            code,
            range,
        ),
    }
}

/// Every endpoint of every edge is checked.
pub proof fn every_endpoint_is_checked(
    file: SourceFileModel,
    count: int,
    code: DiagnosticCode,
    range: SourceRange,
)
    requires
        0 <= count <= file.edges.len(),
    ensures
        reports(endpoints_findings(file, count), code, range) <==> exists|i: int|
            0 <= i < count && (reports(
                endpoint_findings(file, (#[trigger] file.edges[i]).source),
                code,
                range,
            ) || reports(endpoint_findings(file, file.edges[i].target), code, range)),
    decreases count,
{
    if count > 0 {
        every_endpoint_is_checked(file, count - 1, code, range);
        let front = endpoints_findings(file, count - 1);
        let edge = file.edges[count - 1];
        let left = endpoint_findings(file, edge.source);
        let right = endpoint_findings(file, edge.target);
        both_report(front, left, code, range);
        both_report(front + left, right, code, range);
        if reports(left, code, range) || reports(right, code, range) {
            assert(file.edges[count - 1] == edge);
        }
    }
}

/// Where the schema of an edge says which schemas its ends carry, a local end whose node is
/// declared without that schema is reported, and one with it is not.
pub proof fn an_end_carries_its_schema(
    nodes: Seq<NodeDeclarationModel>,
    relation: Seq<char>,
    name: Spanned<Seq<char>>,
    required: Seq<char>,
    side: Seq<char>,
    k: int,
)
    requires
        0 <= k < nodes.len(),
        nodes[k].name.value == name.value,
        forall|j: int| 0 <= j < k ==> (#[trigger] nodes[j]).name.value != name.value,
    ensures
        reports(
            side_findings(nodes, relation, EndpointModel::Local(name), required, side),
            DiagnosticCode::NostSchemaViolation,
            name.range,
        ) <==> forall|i: int|
            0 <= i < nodes[k].schemas.len() ==> (#[trigger] nodes[k].schemas[i]).value != required,
{
    first_node(nodes, name.value, 0);
    let m = find_node(nodes, name.value, 0)->0;
    assert(m == k) by {
        if m < k {
            assert(nodes[m].name.value != name.value);
        }
        if k < m {
            assert(nodes[k].name.value != name.value);
        }
    }
    let found = side_findings(nodes, relation, EndpointModel::Local(name), required, side);
    if found.len() > 0 {
        assert(found[0].code == DiagnosticCode::NostSchemaViolation);
    }
}

/// Both ends of an edge are held to the schema of its relation: the source to the one and the
/// target to the other.
pub proof fn both_ends_are_checked(
    schemas: Seq<SchemaDeclarationModel>,
    nodes: Seq<NodeDeclarationModel>,
    edge: EdgeDeclarationModel,
    at: int,
    code: DiagnosticCode,
    range: SourceRange,
)
    requires
        stands_for(schemas, edge.relation.value, at),
    ensures
        schemas[at].endpoints matches Some(constraint) ==> (reports(
            constraint_findings(schemas, nodes, edge),
            code,
            range,
        ) <==> reports(
            side_findings(
                nodes,
                edge.relation.value,
                edge.source,
                constraint.source.value,
                "source"@,
            ),
            code,
            range,
        ) || reports(
            side_findings(
                nodes,
                edge.relation.value,
                edge.target,
                constraint.target.value,
                "target"@,
            ),
            code,
            range,
        )),
        schemas[at].endpoints is None ==> constraint_findings(schemas, nodes, edge).len() == 0,
{
    the_schema_is_found(schemas, edge.relation.value, at);
    if let Some(constraint) = schemas[at].endpoints {
        both_report(
            side_findings(
                nodes,
                edge.relation.value,
                edge.source,
                constraint.source.value,
                "source"@,
            ),
            side_findings(
                nodes,
                edge.relation.value,
                edge.target,
                constraint.target.value,
                "target"@,
            ),
            code,
            range,
        );
    }
}

} // verus!
