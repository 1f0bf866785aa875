//! How the checks of a source file add up: every value, every record, every contribution and
//! every part of the file is held to its rules.

use crate::contribution::OwnerKind;
use crate::diagnostic::DiagnosticCode;
use crate::diagnostic::DiagnosticModel;
use crate::evidence::SourceRange;
use crate::laws::rows::pushed_contains;
use crate::laws::validating::both_report;
use crate::laws::validating::a_wrong_kind_is_reported;
use crate::laws::validating::first_rule;
use crate::laws::validating::is_first;
use crate::laws::validating::is_unset;
use crate::laws::validating::stands_for;
use crate::nost::validate::value_matches;
use crate::laws::validating::is_rule;
use crate::laws::validating::one_reports;
use crate::laws::validating::reports;
use crate::laws::validating::rules_stay;
use crate::nost::validate::conflicts_with;
use crate::nost::validate::constraint_findings;
use crate::nost::validate::contribution_findings;
use crate::nost::validate::contributions_findings;
use crate::nost::validate::edge_findings;
use crate::nost::validate::edge_ids;
use crate::nost::validate::edge_ownership;
use crate::nost::validate::endpoints_findings;
use crate::nost::validate::evidence_blocks_findings;
use crate::nost::validate::evidence_field_findings;
use crate::nost::validate::evidence_findings;
use crate::nost::validate::evidence_key;
use crate::nost::validate::evidence_value_findings;
use crate::nost::validate::find_rule;
use crate::nost::validate::findings;
use crate::nost::validate::id_fault;
use crate::nost::validate::ids_of;
use crate::nost::validate::item_findings;
use crate::nost::validate::key_set;
use crate::nost::validate::link_findings;
use crate::nost::validate::missing_key;
use crate::nost::validate::missing_producer;
use crate::nost::validate::node_declared;
use crate::nost::validate::node_findings;
use crate::nost::validate::node_ids;
use crate::nost::validate::node_ownership;
use crate::nost::validate::ownership_findings;
use crate::nost::validate::property_findings;
use crate::nost::validate::record_findings;
use crate::nost::validate::reserved_findings;
use crate::nost::validate::rules_with;
use crate::nost::validate::schema_findings;
use crate::nost::validate::states;
use crate::nost::validate::unit_interval;
use crate::nost::validate::used_id;
use crate::nost::validate::value_findings;
use crate::nost::validate::FieldRuleModel;
use crate::nost::ContributionBlockModel;
use crate::nost::EdgeDeclarationModel;
use crate::nost::EvidenceBlockModel;
use crate::nost::EvidenceFieldModel;
use crate::nost::EvidenceValueModel;
use crate::nost::NodeDeclarationModel;
use crate::nost::PropertyModel;
use crate::nost::SchemaFieldModel;
use crate::nost::SourceFileModel;
use crate::nost::Spanned;
use crate::nost::ValueModel;
use crate::number::read_signed;
use crate::number::shown;
use crate::number::shown_reads_back;
use crate::property::valid_datetime;
use crate::schema::FieldType;
use vstd::prelude::*;

verus! {

proof fn single_reports(one: DiagnosticModel, code: DiagnosticCode, range: SourceRange)
    ensures
        reports(seq![one], code, range) <==> one.code == code && one.range == Some(range),
{
    let found = seq![one];
    assert(found[0] == one);
}

// -- Values ------------------------------------------------------------------------

/// A number that fits into 64 bits is in order however it is written, and so are truth values,
/// texts and bytes.
pub proof fn plain_values_are_in_order(key: Seq<char>, value: ValueModel, range: SourceRange, n: int)
    requires
        i64::MIN <= n <= i64::MAX,
    ensures
        value_findings(key, ValueModel::Integer(shown(n)), range).len() == 0,
        value is Boolean || value is String || value is Bytes ==> value_findings(
            key,
            value,
            range,
        ).len() == 0,
{
    shown_reads_back(n);
}

/// An integer is reported exactly where it is too large for 64 bits or no number, and a
/// timestamp exactly where it is none.
pub proof fn unreadable_values_are_reported(key: Seq<char>, text: Seq<char>, range: SourceRange)
    ensures
        reports(
            value_findings(key, ValueModel::Integer(text), range),
            DiagnosticCode::NostIntegerOutOfRange,
            range,
        ) <==> read_signed(text) is None,
        reports(
            value_findings(key, ValueModel::DateTime(text), range),
            DiagnosticCode::NostInvalidDatetime,
            range,
        ) <==> !valid_datetime(text),
        reports(
            value_findings(key, ValueModel::Float(text), range),
            DiagnosticCode::NostNonFiniteNumber,
            range,
        ) <==> !(crate::decimal::read_double(text) matches Some(bits) && crate::float::finite(bits)
            && (key == "confidence_score"@ ==> unit_interval(bits))),
{
    let first = value_findings(key, ValueModel::Integer(text), range);
    let second = value_findings(key, ValueModel::DateTime(text), range);
    let third = value_findings(key, ValueModel::Float(text), range);
    if first.len() > 0 {
        assert(first[0].code == DiagnosticCode::NostIntegerOutOfRange);
    }
    if second.len() > 0 {
        assert(second[0].code == DiagnosticCode::NostInvalidDatetime);
    }
    if third.len() > 0 {
        assert(third[0].code == DiagnosticCode::NostNonFiniteNumber);
    }
}

/// Every item of a list is checked as a value of its own, where it stands.
pub proof fn every_item_is_checked(
    key: Seq<char>,
    items: Seq<Spanned<ValueModel>>,
    count: nat,
    code: DiagnosticCode,
    range: SourceRange,
)
    requires
        count <= items.len(),
    ensures
        reports(item_findings(key, items, count), code, range) <==> exists|i: int|
            0 <= i < count && reports(
                value_findings(key, (#[trigger] items[i]).value, items[i].range),
                code,
                range,
            ),
    decreases count,
{
    if count > 0 {
        let less = (count - 1) as nat;
        every_item_is_checked(key, items, less, code, range);
        let last = value_findings(key, items[count - 1].value, items[count - 1].range);
        both_report(item_findings(key, items, less), last, code, range);
        if reports(last, code, range) {
            assert(items[count - 1] == items[count - 1]);
        }
    }
}

// -- Properties --------------------------------------------------------------------

/// A property is reported for repeating a key that an earlier one of its block has, for its
/// value, and for what its key reserves, and for nothing else.
pub proof fn every_property_is_checked(
    properties: Seq<PropertyModel>,
    count: int,
    ids: Seq<Seq<char>>,
    node: bool,
    code: DiagnosticCode,
    range: SourceRange,
)
    requires
        0 <= count <= properties.len(),
    ensures
        reports(property_findings(properties, count, ids, node), code, range) <==> exists|k: int|
            0 <= k < count && property_breaks(properties, k, ids, node, code, range),
    decreases count,
{
    if count > 0 {
        every_property_is_checked(properties, count - 1, ids, node, code, range);
        let property = properties[count - 1];
        let front = property_findings(properties, count - 1, ids, node);
        let holds = key_set(properties, count - 1, property.key.value);
        let own = DiagnosticCode::NostDuplicatePropertyKey;
        let text = "the property key "@ + property.key.value
            + " is set more than once in this block"@;
        let first = crate::nost::validate::when(holds, own, property.key.range, text);
        let second = value_findings(
            property.key.value,
            property.value.value,
            property.value.range,
        );
        let third = reserved_findings(property, ids_of(properties, count - 1, ids, node), node);
        both_report(front, first, code, range);
        both_report(front + first, second, code, range);
        both_report(front + first + second, third, code, range);
        one_reports(holds, own, property.key.range, text, code, range);
        assert(reports(front + first + second + third, code, range) <==> reports(front, code, range)
            || property_breaks(properties, count - 1, ids, node, code, range));
    }
}

/// Whether a property breaks a rule at a place.
pub open spec fn property_breaks(
    properties: Seq<PropertyModel>,
    k: int,
    ids: Seq<Seq<char>>,
    node: bool,
    code: DiagnosticCode,
    range: SourceRange,
) -> bool {
    let property = properties[k];
    ||| code == DiagnosticCode::NostDuplicatePropertyKey && range == property.key.range && exists|
        j: int,
    |
        0 <= j < k && (#[trigger] properties[j]).key.value == property.key.value
    ||| reports(
        value_findings(property.key.value, property.value.value, property.value.range),
        code,
        range,
    )
    ||| reports(reserved_findings(property, ids_of(properties, k, ids, node), node), code, range)
}

/// Whether a property states a valid identifier.
pub open spec fn identifies(property: PropertyModel, node: bool, text: Seq<char>) -> bool {
    property.key.value == "id"@ && property.value.value == ValueModel::String(text) && id_fault(
        text,
        node,
    ) is None
}

/// The identifiers in use are those from before and those that a property states.
pub proof fn stated_identifiers_are_in_use(
    properties: Seq<PropertyModel>,
    count: int,
    ids: Seq<Seq<char>>,
    node: bool,
    text: Seq<char>,
)
    requires
        0 <= count <= properties.len(),
    ensures
        ids_of(properties, count, ids, node).contains(text) <==> ids.contains(text) || exists|
            i: int,
        |
            0 <= i < count && identifies(#[trigger] properties[i], node, text),
    decreases count,
{
    if count > 0 {
        stated_identifiers_are_in_use(properties, count - 1, ids, node, text);
        let last = properties[count - 1];
        let before = ids_of(properties, count - 1, ids, node);
        if let Some(own) = used_id(last, node) {
            pushed_contains(before, own, text);
        }
        assert(used_id(last, node) == Some(text) <==> identifies(last, node, text));
        if identifies(last, node, text) {
            assert(properties[count - 1] == last);
        }
    }
}

/// An identifier is reported as invalid where it is no text or none of its kind, as repeated
/// where it is in use, and never otherwise. Labels are a list of texts. No other key is
/// reserved.
pub proof fn reserved_keys_are_checked(
    property: PropertyModel,
    ids: Seq<Seq<char>>,
    node: bool,
    code: DiagnosticCode,
    range: SourceRange,
)
    ensures
        property.key.value == "id"@ ==> (reports(
            reserved_findings(property, ids, node),
            code,
            range,
        ) <==> range == property.value.range && ((code == DiagnosticCode::NostInvalidId && !(exists|
            text: Seq<char>,
        | #[trigger] identifies(property, node, text))) || (code == DiagnosticCode::NostDuplicateId
            && exists|text: Seq<char>| #[trigger]
            identifies(property, node, text) && ids.contains(text)))),
        property.key.value == "labels"@ ==> (reports(
            reserved_findings(property, ids, node),
            code,
            range,
        ) <==> range == property.value.range && code == DiagnosticCode::NostSchemaViolation && !(
        property.value.value matches ValueModel::List(items) && forall|i: int|
            0 <= i < items.len() ==> (#[trigger] items[i]).value is String)),
        property.key.value != "id"@ && property.key.value != "labels"@ ==> reserved_findings(
            property,
            ids,
            node,
        ).len() == 0,
{
    reveal_strlit("id");
    reveal_strlit("labels");
    assert("id"@.len() == 2 && "labels"@.len() == 6);
    let found = reserved_findings(property, ids, node);
    if found.len() > 0 {
        assert(found =~= seq![found[0]]);
        single_reports(found[0], code, range);
    }
    if property.key.value == "id"@ {
        match property.value.value {
            ValueModel::String(text) => {
                if id_fault(text, node) is None {
                    assert(identifies(property, node, text));
                    assert forall|other: Seq<char>| #[trigger]
                        identifies(property, node, other) implies other == text by {}
                } else {
                    assert forall|other: Seq<char>| !#[trigger] identifies(property, node, other) by {}
                }
            },
            _ => {
                assert forall|other: Seq<char>| !#[trigger] identifies(property, node, other) by {}
            },
        }
    }
}

// -- Nodes and edges ---------------------------------------------------------------

/// Every node is reported for repeating the name of an earlier one and for what is wrong with
/// its record, held to the identifiers of the nodes before it, and for nothing else.
pub proof fn every_node_is_checked(
    file: SourceFileModel,
    count: int,
    code: DiagnosticCode,
    range: SourceRange,
)
    requires
        0 <= count <= file.nodes.len(),
    ensures
        reports(node_findings(file.schemas, file.nodes, count), code, range) <==> exists|k: int|
            0 <= k < count && node_breaks(file, k, code, range),
    decreases count,
{
    if count > 0 {
        every_node_is_checked(file, count - 1, code, range);
        let nodes = file.nodes;
        let node = nodes[count - 1];
        let front = node_findings(file.schemas, nodes, count - 1);
        let holds = node_declared(nodes, count - 1, node.name.value);
        let own = DiagnosticCode::NostDuplicateDeclarationName;
        let text = "the name "@ + node.name.value + " is declared more than once in this file"@;
        let first = crate::nost::validate::when(holds, own, node.name.range, text);
        let second = record_findings(
            file.schemas,
            node.schemas,
            node.record,
            node.name.range,
            node_ids(nodes, count - 1),
            true,
        );
        both_report(front, first, code, range);
        both_report(front + first, second, code, range);
        one_reports(holds, own, node.name.range, text, code, range);
        assert(reports(front + first + second, code, range) <==> reports(front, code, range)
            || node_breaks(file, count - 1, code, range));
    }
}

/// Whether a node breaks a rule at a place.
pub open spec fn node_breaks(
    file: SourceFileModel,
    k: int,
    code: DiagnosticCode,
    range: SourceRange,
) -> bool {
    let node = file.nodes[k];
    ||| code == DiagnosticCode::NostDuplicateDeclarationName && range == node.name.range && exists|
        j: int,
    |
        0 <= j < k && (#[trigger] file.nodes[j]).name.value == node.name.value
    ||| reports(
        record_findings(
            file.schemas,
            node.schemas,
            node.record,
            node.name.range,
            node_ids(file.nodes, k),
            true,
        ),
        code,
        range,
    )
}

/// The identifiers in use by nodes are those that a property of one of them states.
pub proof fn nodes_use_what_they_state(
    nodes: Seq<NodeDeclarationModel>,
    count: int,
    text: Seq<char>,
)
    requires
        0 <= count <= nodes.len(),
    ensures
        node_ids(nodes, count).contains(text) <==> exists|k: int|
            0 <= k < count && states_id((#[trigger] nodes[k]).record.properties, true, text),
    decreases count,
{
    if count > 0 {
        nodes_use_what_they_state(nodes, count - 1, text);
        let properties = nodes[count - 1].record.properties;
        stated_identifiers_are_in_use(
            properties,
            properties.len() as int,
            node_ids(nodes, count - 1),
            true,
            text,
        );
        if states_id(properties, true, text) {
            assert(nodes[count - 1].record.properties == properties);
        }
    }
}

/// Whether one of the properties states an identifier.
pub open spec fn states_id(properties: Seq<PropertyModel>, node: bool, text: Seq<char>) -> bool {
    exists|i: int| 0 <= i < properties.len() && identifies(#[trigger] properties[i], node, text)
}

/// The identifiers in use behind some edges are those of all nodes and those that a property of
/// one of the edges states.
pub proof fn edges_use_what_they_state(file: SourceFileModel, count: int, text: Seq<char>)
    requires
        0 <= count <= file.edges.len(),
    ensures
        edge_ids(file, count).contains(text) <==> node_ids(
            file.nodes,
            file.nodes.len() as int,
        ).contains(text) || exists|k: int|
            0 <= k < count && states_id((#[trigger] file.edges[k]).record.properties, false, text),
    decreases count,
{
    if count > 0 {
        edges_use_what_they_state(file, count - 1, text);
        let properties = file.edges[count - 1].record.properties;
        stated_identifiers_are_in_use(
            properties,
            properties.len() as int,
            edge_ids(file, count - 1),
            false,
            text,
        );
        if states_id(properties, false, text) {
            assert(file.edges[count - 1].record.properties == properties);
        }
    }
}

/// Every edge is reported for what is wrong with its record by the schema of its relation and
/// for what its ends lack, and for nothing else.
pub proof fn every_edge_is_checked(
    file: SourceFileModel,
    count: int,
    code: DiagnosticCode,
    range: SourceRange,
)
    requires
        0 <= count <= file.edges.len(),
    ensures
        reports(edge_findings(file, count), code, range) <==> exists|k: int|
            0 <= k < count && edge_breaks(file, k, code, range),
    decreases count,
{
    if count > 0 {
        every_edge_is_checked(file, count - 1, code, range);
        let edge = file.edges[count - 1];
        let front = edge_findings(file, count - 1);
        let first = record_findings(
            file.schemas,
            seq![edge.relation],
            edge.record,
            edge.relation.range,
            edge_ids(file, count - 1),
            false,
        );
        let second = constraint_findings(file.schemas, file.nodes, edge);
        both_report(front, first, code, range);
        both_report(front + first, second, code, range);
        assert(reports(front + first + second, code, range) <==> reports(front, code, range)
            || edge_breaks(file, count - 1, code, range));
    }
}

/// Whether an edge breaks a rule at a place.
pub open spec fn edge_breaks(
    file: SourceFileModel,
    k: int,
    code: DiagnosticCode,
    range: SourceRange,
) -> bool {
    let edge = file.edges[k];
    ||| reports(
        record_findings(
            file.schemas,
            seq![edge.relation],
            edge.record,
            edge.relation.range,
            edge_ids(file, k),
            false,
        ),
        code,
        range,
    )
    ||| reports(constraint_findings(file.schemas, file.nodes, edge), code, range)
}

/// Where one schema that a record names declares a key otherwise than an earlier one, that is
/// reported at the later declaration.
pub proof fn a_conflict_is_reported(
    rules: Seq<FieldRuleModel>,
    fields: Seq<SchemaFieldModel>,
    count: int,
    i: int,
    k: int,
    declared: FieldType,
)
    requires
        0 <= k < count <= fields.len(),
        is_rule(rules, i, fields[k].key.value, declared, false),
        forall|j: int| 0 <= j < i ==> (#[trigger] rules[j]).key != fields[k].key.value,
        declared != fields[k].field_type.value,
    ensures
        reports(
            conflicts_with(rules, fields, count),
            DiagnosticCode::NostSchemaConflict,
            fields[k].key.range,
        ),
    decreases count,
{
    let code = DiagnosticCode::NostSchemaConflict;
    let range = fields[k].key.range;
    let field = fields[count - 1];
    let earlier = rules_with(rules, fields, count - 1);
    let last = match find_rule(earlier, field.key.value, 0) {
        None => Seq::empty(),
        Some(at) => crate::nost::validate::when(
            earlier[at].declared != field.field_type.value,
            code,
            field.key.range,
            "the field "@ + field.key.value + " is declared as "@ + earlier[at].declared.text()
                + " and as "@ + field.field_type.value.text()
                + " by two schemas this record names"@,
        ),
    };
    both_report(conflicts_with(rules, fields, count - 1), last, code, range);
    if k < count - 1 {
        a_conflict_is_reported(rules, fields, count - 1, i, k, declared);
    } else {
        let key = fields[k].key.value;
        rules_stay(rules, fields, count - 1, i, key, declared, false);
        first_keys_stay(rules, fields, count - 1, i, key);
        first_rule(earlier, key, 0);
        assert(find_rule(earlier, key, 0) == Some(i)) by {
            match find_rule(earlier, key, 0) {
                Some(m) => {
                    if m < i {
                        assert(earlier[m].key != key);
                    }
                    if i < m {
                        assert(earlier[i].key != key);
                    }
                },
                None => assert(earlier[i].key != key),
            }
        }
        assert(last[0].code == code);
    }
}

proof fn first_keys_stay(
    rules: Seq<FieldRuleModel>,
    fields: Seq<SchemaFieldModel>,
    count: int,
    i: int,
    key: Seq<char>,
)
    requires
        0 <= count <= fields.len(),
        0 <= i < rules.len(),
        forall|j: int| 0 <= j < i ==> (#[trigger] rules[j]).key != key,
    ensures
        rules_with(rules, fields, count).len() >= rules.len(),
        forall|j: int| 0 <= j < i ==> (#[trigger] rules_with(rules, fields, count)[j]).key != key,
    decreases count,
{
    if count > 0 {
        first_keys_stay(rules, fields, count - 1, i, key);
        first_rule(rules_with(rules, fields, count - 1), fields[count - 1].key.value, 0);
    }
}

// -- Contributions -----------------------------------------------------------------

/// Whether an evidence block states a key.
pub open spec fn says_key(block: EvidenceBlockModel, key: Seq<char>) -> bool {
    exists|i: int| 0 <= i < block.fields.len() && (#[trigger] block.fields[i]).key.value == key
}

proof fn missing_reports(block: EvidenceBlockModel, key: Seq<char>)
    ensures
        reports(missing_key(block, key), DiagnosticCode::NostInvalidEvidence, block.range)
            <==> !says_key(block, key),
        reports(missing_producer(block, key), DiagnosticCode::NostInvalidEvidence, block.range)
            <==> !says_key(block, key),
{
    let first = missing_key(block, key);
    let second = missing_producer(block, key);
    if first.len() > 0 {
        assert(first[0].code == DiagnosticCode::NostInvalidEvidence);
    }
    if second.len() > 0 {
        assert(second[0].code == DiagnosticCode::NostInvalidEvidence);
    }
}

/// An evidence block that lacks its source, its digest, its method or its confidence is
/// reported, and so is one without a producer or its version where no analyzer owns it.
pub proof fn incomplete_evidence_is_reported(block: EvidenceBlockModel, inherits: bool)
    ensures
        !says_key(block, "source"@) || !says_key(block, "digest"@) || !says_key(block, "method"@)
            || !says_key(block, "confidence"@) || (!inherits && (!says_key(block, "producer"@)
            || !says_key(block, "producer_version"@))) ==> reports(
            evidence_findings(block, inherits),
            DiagnosticCode::NostInvalidEvidence,
            block.range,
        ),
        says_key(block, "source"@) && says_key(block, "digest"@) && says_key(block, "method"@)
            && says_key(block, "confidence"@) && (inherits || (says_key(block, "producer"@)
            && says_key(block, "producer_version"@))) ==> evidence_findings(block, inherits)
            == evidence_field_findings(block.fields, block.fields.len() as int),
{
    let code = DiagnosticCode::NostInvalidEvidence;
    let range = block.range;
    let a = evidence_field_findings(block.fields, block.fields.len() as int);
    let b = missing_key(block, "source"@);
    let c = missing_key(block, "digest"@);
    let d = missing_key(block, "method"@);
    let e = missing_key(block, "confidence"@);
    let f = missing_producer(block, "producer"@);
    let g = missing_producer(block, "producer_version"@);
    missing_reports(block, "source"@);
    missing_reports(block, "digest"@);
    missing_reports(block, "method"@);
    missing_reports(block, "confidence"@);
    missing_reports(block, "producer"@);
    missing_reports(block, "producer_version"@);
    let last = if inherits {
        Seq::empty()
    } else {
        f + g
    };
    both_report(a, b, code, range);
    both_report(a + b, c, code, range);
    both_report(a + b + c, d, code, range);
    both_report(a + b + c + d, e, code, range);
    both_report(a + b + c + d + e, last, code, range);
    both_report(f, g, code, range);
    if says_key(block, "source"@) && says_key(block, "digest"@) && says_key(block, "method"@)
        && says_key(block, "confidence"@) && (inherits || (says_key(block, "producer"@) && says_key(
        block,
        "producer_version"@,
    ))) {
        assert(b.len() == 0 && c.len() == 0 && d.len() == 0 && e.len() == 0 && last.len() == 0);
        assert(evidence_findings(block, inherits) =~= a);
    }
}

/// A contribution of anyone but the user is reported where it carries no evidence. The user's
/// needs none.
pub proof fn only_the_user_needs_no_evidence(block: ContributionBlockModel)
    requires
        block.unit is None,
        block.evidence.len() == 0,
    ensures
        block.owner.kind() != OwnerKind::User <==> reports(
            contribution_findings(block),
            DiagnosticCode::NostInvalidEvidence,
            block.owner.place(),
        ),
        block.owner.kind() == OwnerKind::User ==> contribution_findings(block).len() == 0,
{
    let found = contribution_findings(block);
    let holds = block.owner.kind() != OwnerKind::User;
    let text = "an `"@ + block.owner.word() + "` contribution must carry evidence"@;
    let code = DiagnosticCode::NostInvalidEvidence;
    let one = crate::nost::validate::when(holds, code, block.owner.place(), text);
    assert(found =~= one);
    one_reports(holds, code, block.owner.place(), text, code, block.owner.place());
}

/// Every evidence block of a contribution is checked. An analyzer's may leave its producer out.
pub proof fn every_evidence_block_is_checked(
    block: ContributionBlockModel,
    k: int,
    code: DiagnosticCode,
    range: SourceRange,
)
    requires
        0 <= k < block.evidence.len(),
        reports(evidence_findings(block.evidence[k], block.owner is Analyzer), code, range),
    ensures
        reports(contribution_findings(block), code, range),
{
    blocks_report(block.evidence, block.evidence.len() as int, block.owner is Analyzer, k, code, range);
    let all = contribution_findings(block);
    let last = evidence_blocks_findings(
        block.evidence,
        block.evidence.len() as int,
        block.owner is Analyzer,
    );
    let front = all.take(all.len() - last.len());
    assert(all =~= front + last);
    both_report(front, last, code, range);
}

proof fn blocks_report(
    blocks: Seq<EvidenceBlockModel>,
    count: int,
    inherits: bool,
    k: int,
    code: DiagnosticCode,
    range: SourceRange,
)
    requires
        0 <= k < count <= blocks.len(),
        reports(evidence_findings(blocks[k], inherits), code, range),
    ensures
        reports(evidence_blocks_findings(blocks, count, inherits), code, range),
    decreases count,
{
    both_report(
        evidence_blocks_findings(blocks, count - 1, inherits),
        evidence_findings(blocks[count - 1], inherits),
        code,
        range,
    );
    if k < count - 1 {
        blocks_report(blocks, count - 1, inherits, k, code, range);
    }
}

/// Every field of an evidence block is reported for a key that is none of evidence, for
/// repeating one, and for its value, and for nothing else.
pub proof fn every_evidence_field_is_checked(
    fields: Seq<EvidenceFieldModel>,
    count: int,
    code: DiagnosticCode,
    range: SourceRange,
)
    requires
        0 <= count <= fields.len(),
    ensures
        reports(evidence_field_findings(fields, count), code, range) <==> exists|k: int|
            0 <= k < count && evidence_field_breaks(fields, k, code, range),
    decreases count,
{
    if count > 0 {
        every_evidence_field_is_checked(fields, count - 1, code, range);
        let field = fields[count - 1];
        let front = evidence_field_findings(fields, count - 1);
        let invalid = DiagnosticCode::NostInvalidEvidence;
        let repeated = DiagnosticCode::NostDuplicatePropertyKey;
        if !evidence_key(field.key.value) {
            let one = crate::nost::validate::finding(
                invalid,
                field.key.range,
                "`"@ + field.key.value + "` is not an evidence key"@,
            );
            single_reports(one, code, range);
            both_report(front, seq![one], code, range);
        } else {
            let holds = states(fields, count - 1, field.key.value);
            let text = "the evidence key "@ + field.key.value
                + " is set more than once in this block"@;
            let first = crate::nost::validate::when(holds, repeated, field.key.range, text);
            let second = evidence_value_findings(
                field.key.value,
                field.value.value,
                field.value.range,
            );
            one_reports(holds, repeated, field.key.range, text, code, range);
            both_report(first, second, code, range);
            both_report(front, first + second, code, range);
        }
        assert(reports(evidence_field_findings(fields, count), code, range) <==> reports(
            front,
            code,
            range,
        ) || evidence_field_breaks(fields, count - 1, code, range));
    }
}

/// Whether a field of an evidence block breaks a rule at a place.
pub open spec fn evidence_field_breaks(
    fields: Seq<EvidenceFieldModel>,
    k: int,
    code: DiagnosticCode,
    range: SourceRange,
) -> bool {
    let field = fields[k];
    if !evidence_key(field.key.value) {
        code == DiagnosticCode::NostInvalidEvidence && range == field.key.range
    } else {
        ||| code == DiagnosticCode::NostDuplicatePropertyKey && range == field.key.range && exists|
            j: int,
        |
            0 <= j < k && (#[trigger] fields[j]).key.value == field.key.value
        ||| reports(
            evidence_value_findings(field.key.value, field.value.value, field.value.range),
            code,
            range,
        )
    }
}

// -- Files -------------------------------------------------------------------------

/// What is wrong with a file is what is wrong with one of its parts: its version, its links, its
/// schemas, its nodes, its edges, their ends and their contributions.
pub proof fn every_part_is_checked(
    file: SourceFileModel,
    code: DiagnosticCode,
    range: SourceRange,
)
    ensures
        reports(findings(file), code, range) <==> {
            ||| file.version.value != 2 && code == DiagnosticCode::NostVersionUnsupported && range
                == file.version.range
            ||| reports(link_findings(file.links, file.links.len() as int), code, range)
            ||| reports(schema_findings(file.schemas, file.schemas.len() as int), code, range)
            ||| reports(
                node_findings(file.schemas, file.nodes, file.nodes.len() as int),
                code,
                range,
            )
            ||| reports(edge_findings(file, file.edges.len() as int), code, range)
            ||| reports(endpoints_findings(file, file.edges.len() as int), code, range)
            ||| reports(node_ownership(file.nodes, file.nodes.len() as int), code, range)
            ||| reports(edge_ownership(file.edges, file.edges.len() as int), code, range)
        },
{
    let text = "language version "@ + crate::number::digits_of(file.version.value as nat)
        + " is not supported; this build supports [2]"@;
    let holds = file.version.value != 2;
    let own = DiagnosticCode::NostVersionUnsupported;
    let a = crate::nost::validate::when(holds, own, file.version.range, text);
    let b = link_findings(file.links, file.links.len() as int);
    let c = schema_findings(file.schemas, file.schemas.len() as int);
    let d = node_findings(file.schemas, file.nodes, file.nodes.len() as int);
    let e = edge_findings(file, file.edges.len() as int);
    let f = endpoints_findings(file, file.edges.len() as int);
    let g = node_ownership(file.nodes, file.nodes.len() as int);
    let h = edge_ownership(file.edges, file.edges.len() as int);
    one_reports(holds, own, file.version.range, text, code, range);
    both_report(a, b, code, range);
    both_report(a + b, c, code, range);
    both_report(d, e, code, range);
    both_report(a + b + c, d + e, code, range);
    both_report(a + b + c + (d + e), f, code, range);
    both_report(g, h, code, range);
    both_report(a + b + c + (d + e) + f, g + h, code, range);
}

/// Every contribution of every node and of every edge is checked.
pub proof fn every_contribution_is_checked(
    file: SourceFileModel,
    k: int,
    m: int,
    code: DiagnosticCode,
    range: SourceRange,
)
    ensures
        0 <= k < file.nodes.len() && 0 <= m < file.nodes[k].record.contributions.len() && reports(
            contribution_findings(file.nodes[k].record.contributions[m]),
            code,
            range,
        ) ==> reports(findings(file), code, range),
        0 <= k < file.edges.len() && 0 <= m < file.edges[k].record.contributions.len() && reports(
            contribution_findings(file.edges[k].record.contributions[m]),
            code,
            range,
        ) ==> reports(findings(file), code, range),
{
    every_part_is_checked(file, code, range);
    if 0 <= k < file.nodes.len() && 0 <= m < file.nodes[k].record.contributions.len() && reports(
        contribution_findings(file.nodes[k].record.contributions[m]),
        code,
        range,
    ) {
        let entries = file.nodes[k].record.contributions;
        contributions_report(entries, entries.len() as int, m, code, range);
        nodes_own(file.nodes, file.nodes.len() as int, k, code, range);
    }
    if 0 <= k < file.edges.len() && 0 <= m < file.edges[k].record.contributions.len() && reports(
        contribution_findings(file.edges[k].record.contributions[m]),
        code,
        range,
    ) {
        let entries = file.edges[k].record.contributions;
        contributions_report(entries, entries.len() as int, m, code, range);
        edges_own(file.edges, file.edges.len() as int, k, code, range);
    }
}

proof fn contributions_report(
    blocks: Seq<ContributionBlockModel>,
    count: int,
    m: int,
    code: DiagnosticCode,
    range: SourceRange,
)
    requires
        0 <= m < count <= blocks.len(),
        reports(contribution_findings(blocks[m]), code, range),
    ensures
        reports(contributions_findings(blocks, count), code, range),
    decreases count,
{
    both_report(
        contributions_findings(blocks, count - 1),
        contribution_findings(blocks[count - 1]),
        code,
        range,
    );
    if m < count - 1 {
        contributions_report(blocks, count - 1, m, code, range);
    }
}

proof fn nodes_own(
    nodes: Seq<NodeDeclarationModel>,
    count: int,
    k: int,
    code: DiagnosticCode,
    range: SourceRange,
)
    requires
        0 <= k < count <= nodes.len(),
        reports(ownership_findings(nodes[k].record), code, range),
    ensures
        reports(node_ownership(nodes, count), code, range),
    decreases count,
{
    both_report(
        node_ownership(nodes, count - 1),
        ownership_findings(nodes[count - 1].record),
        code,
        range,
    );
    if k < count - 1 {
        nodes_own(nodes, count - 1, k, code, range);
    }
}

proof fn edges_own(
    edges: Seq<EdgeDeclarationModel>,
    count: int,
    k: int,
    code: DiagnosticCode,
    range: SourceRange,
)
    requires
        0 <= k < count <= edges.len(),
        reports(ownership_findings(edges[k].record), code, range),
    ensures
        reports(edge_ownership(edges, count), code, range),
    decreases count,
{
    both_report(
        edge_ownership(edges, count - 1),
        ownership_findings(edges[count - 1].record),
        code,
        range,
    );
    if k < count - 1 {
        edges_own(edges, count - 1, k, code, range);
    }
}

/// A node of a file whose first schema declares a field, and that holds a value of another kind
/// under that key, is reported where the value stands; one that lacks a required field is
/// reported at its name.
pub proof fn a_wrong_kind_in_a_node_is_reported(
    file: SourceFileModel,
    n: int,
    at: int,
    f: int,
    k: int,
)
    requires
        0 <= n < file.nodes.len(),
        file.nodes[n].schemas.len() > 0,
        stands_for(file.schemas, file.nodes[n].schemas[0].value, at),
        0 <= f < file.schemas[at].fields.len(),
        forall|j: int|
            0 <= j < f ==> (#[trigger] file.schemas[at].fields[j]).key.value
                != file.schemas[at].fields[f].key.value,
    ensures
        ({
            let field = file.schemas[at].fields[f];
            let properties = file.nodes[n].record.properties;
            &&& is_first(properties, field.key.value, k) && !value_matches(
                properties[k].value.value,
                field.field_type.value,
            ) ==> reports(
                findings(file),
                DiagnosticCode::NostSchemaViolation,
                properties[k].value.range,
            )
            &&& is_unset(properties, field.key.value) && !field.optional ==> reports(
                findings(file),
                DiagnosticCode::NostSchemaViolation,
                file.nodes[n].name.range,
            )
        }),
{
    let node = file.nodes[n];
    let code = DiagnosticCode::NostSchemaViolation;
    a_wrong_kind_is_reported(
        file.schemas,
        node.schemas,
        node.record,
        node.name.range,
        node_ids(file.nodes, n),
        true,
        at,
        f,
        k,
    );
    let ranges = seq![node.record.properties[k].value.range, node.name.range];
    every_node_is_checked(file, file.nodes.len() as int, code, ranges[0]);
    every_node_is_checked(file, file.nodes.len() as int, code, ranges[1]);
    every_part_is_checked(file, code, ranges[0]);
    every_part_is_checked(file, code, ranges[1]);
    assert(node_breaks(file, n, code, ranges[0]) ==> reports(findings(file), code, ranges[0]));
    assert(node_breaks(file, n, code, ranges[1]) ==> reports(findings(file), code, ranges[1]));
}

/// The value of an evidence key is in order exactly where it is a quoted text under a key that
/// takes one, a method that there is, or a confidence: `extracted` without a score, or
/// `inferred` or `ambiguous` with one from zero through one.
pub proof fn evidence_values_are_checked(
    key: Seq<char>,
    value: EvidenceValueModel,
    range: SourceRange,
)
    requires
        evidence_key(key),
    ensures
        evidence_value_findings(key, value, range).len() == 0 <==> match value {
            EvidenceValueModel::Text(_) => key != "method"@ && key != "confidence"@,
            EvidenceValueModel::Enumerator { name, score } => {
                ||| key == "method"@ && score is None && (name == "deterministic"@ || name
                    == "ai_inferred"@ || name == "user_declared"@)
                ||| key == "confidence"@ && name == "extracted"@ && score is None
                ||| key == "confidence"@ && (name == "inferred"@ || name == "ambiguous"@) && (
                score matches Some(text) && (crate::decimal::read_double(text) matches Some(bits)
                    && unit_interval(bits)))
            },
        },
{
    reveal_strlit("source");
    reveal_strlit("digest");
    reveal_strlit("revision");
    reveal_strlit("path");
    reveal_strlit("range");
    reveal_strlit("producer");
    reveal_strlit("producer_version");
    reveal_strlit("method");
    reveal_strlit("confidence");
    reveal_strlit("extracted");
    reveal_strlit("inferred");
    reveal_strlit("ambiguous");
    assert("method"@.len() == 6 && "confidence"@.len() == 10 && "source"@.len() == 6
        && "digest"@.len() == 6 && "revision"@.len() == 8 && "path"@.len() == 4 && "range"@.len()
        == 5 && "producer"@.len() == 8 && "producer_version"@.len() == 16);
    assert("method"@[0] == 'm' && "source"@[0] == 's' && "digest"@[0] == 'd');
    assert("extracted"@[0] == 'e' && "inferred"@[0] == 'i' && "ambiguous"@[0] == 'a');
}

} // verus!
