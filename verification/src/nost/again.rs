//! Formatting what was read back gives the same text again.

use super::CommentModel;
use super::CommentsModel;
use super::ContributionBlock;
use super::ContributionBlockModel;
use super::EdgeDeclaration;
use super::EdgeDeclarationModel;
use super::EvidenceBlockModel;
use super::EvidenceField;
use super::EvidenceFieldModel;
use super::EvidenceValueModel;
use super::LinkDeclaration;
use super::LinkDeclarationModel;
use super::NodeDeclaration;
use super::NodeDeclarationModel;
use crate::order::Ordered;
use super::Property;
use super::PropertyModel;
use super::RecordBodyModel;
use super::SchemaDeclaration;
use super::SchemaDeclarationModel;
use super::SchemaField;
use super::SchemaFieldModel;
use super::SourceFileModel;
use super::Spanned;
use super::ValueModel;
use super::format::block_text;
use super::reread::canonical_scalar;
use super::format::closing_comments;
use super::format::comment_lines;
use super::format::contribution_head;
use super::format::contribution_is_empty;
use super::format::contribution_key;
use super::format::contribution_text;
use super::format::contributions_text;
use crate::number::digits_of;
use super::format::edge_head;
use super::format::edge_key;
use super::format::edge_text;
use super::format::edges_text;
use super::format::endpoint_text;
use super::format::evidence_blocks_text;
use super::format::evidence_fields_text;
use super::format::evidence_is_empty;
use super::format::evidence_text;
use super::format::evidence_value_text;
use super::format::find_property;
use crate::float::finite;
use super::format::float_text;
use super::format::formatted;
use super::reread::formatted_file_reads_back;
use super::format::header_text;
use super::format::integer_text;
use super::format::items_text;
use super::format::link_group;
use super::format::link_text;
use super::format::links_text;
use super::format::literal;
use crate::decimal::lowered;
use super::format::names_text;
use super::format::node_head;
use super::format::node_text;
use super::format::nodes_text;
use super::format::own_lines;
use super::format::owner_key;
use super::format::owner_text;
use super::parser::parsed;
use crate::order::place;
use crate::order::place_bounds;
use crate::order::place_splits;
use super::format::properties_text;
use crate::decimal::read_double;
use crate::number::read_signed;
use super::format::record_inside;
use super::format::record_is_empty;
use super::format::record_text;
use super::reread::same_comment;
use super::reread::same_contribution;
use super::reread::same_edge;
use super::reread::same_evidence;
use super::reread::same_evidence_block;
use super::reread::same_evidence_field;
use super::reread::same_field;
use super::reread::same_file;
use super::reread::same_link;
use super::reread::same_list;
use super::reread::same_node;
use super::reread::same_property;
use super::reread::same_record;
use super::reread::same_remarks;
use super::reread::same_schema;
use super::reread::same_value;
use super::format::schema_fields_text;
use super::format::schema_head;
use super::format::schema_is_empty;
use super::format::schema_text;
use super::format::schemas_text;
use super::format::separator;
use crate::number::shown_reads_back;
use crate::order::sorted;
use super::parts::sorted_all;
use crate::order::sorted_is_in_order;
use crate::order::in_order;
use crate::order::sorted_is_stable;
use crate::order::sorted_keeps_items;
use crate::order::sorted_length;
use super::format::stated_id;
use crate::order::texts_are_asymmetric;
use super::format::value_text;
use super::format::with_trailing;
use super::parts::writable;
use super::parts::writable_edge;
use super::parts::writable_node;
use super::format::all_strings;
use super::format::shown_value;
use super::format::strings_of;
use super::parts::shown_is_writable;
use super::parts::writable_property;
use super::parts::writable_record;
use super::parts::writable_scalar;
use super::parts::writable_value;
use crate::shortest::written_number_reads_back;
use vstd::prelude::*;

verus! {

// -- Order -------------------------------------------------------------------------

/// Items that are ordered as sorted items are in order.
proof fn stays_sorted<T: Ordered>(read: Seq<T::V>, wrote: Seq<T::V>)
    requires
        read.len() == sorted::<T>(wrote).len(),
        forall|i: int, j: int|
            0 <= i < j < read.len() ==> T::before(#[trigger] read[j], #[trigger] read[i]) == T::before(
                sorted::<T>(wrote)[j],
                sorted::<T>(wrote)[i],
            ),
    ensures
        sorted::<T>(read) == read,
{
    sorted_is_in_order::<T>(wrote);
    let all = sorted::<T>(wrote);
    assert forall|i: int, j: int| 0 <= i < j < read.len() implies !T::before(
        #[trigger] read[j],
        #[trigger] read[i],
    ) by {
        assert(!T::before(all[j], all[i]));
    }
    sorted_is_stable::<T>(read);
}

// -- Comments ----------------------------------------------------------------------

proof fn same_lines(depth: nat, read: Seq<CommentModel>, wrote: Seq<CommentModel>, count: int)
    requires
        same_list(read, wrote),
        0 <= count <= read.len(),
    ensures
        comment_lines(depth, read, count) == comment_lines(depth, wrote, count),
    decreases count,
{
    if count > 0 {
        same_lines(depth, read, wrote, count - 1);
        assert(same_comment(read[count - 1], wrote[count - 1]));
    }
}

proof fn same_own_lines(depth: nat, read: Seq<CommentModel>, wrote: Seq<CommentModel>)
    requires
        same_list(read, wrote),
    ensures
        own_lines(depth, read) == own_lines(depth, wrote),
{
    same_lines(depth, read, wrote, read.len() as int);
}

proof fn same_trailing(text: Seq<char>, read: CommentsModel, wrote: CommentsModel)
    requires
        same_remarks(read, wrote),
    ensures
        with_trailing(text, read) == with_trailing(text, wrote),
{
}

proof fn same_closing(depth: nat, read: Seq<CommentModel>, wrote: Seq<CommentModel>, blocks: bool)
    requires
        same_list(read, wrote),
    ensures
        closing_comments(depth, read, blocks) == closing_comments(depth, wrote, blocks),
{
    same_own_lines(depth, read, wrote);
}

proof fn same_block(
    depth: nat,
    head: Seq<char>,
    read: CommentsModel,
    wrote: CommentsModel,
    empty: bool,
    body: Seq<char>,
)
    requires
        same_remarks(read, wrote),
    ensures
        block_text(depth, head, read, empty, body) == block_text(depth, head, wrote, empty, body),
{
    same_trailing(head + " {}"@, read, wrote);
    same_trailing(head + " {"@, read, wrote);
}

// -- Values ------------------------------------------------------------------------

proof fn integer_text_twice(text: Seq<char>)
    ensures
        integer_text(integer_text(text)) == integer_text(text),
{
    if let Some(number) = read_signed(text) {
        shown_reads_back(number);
    }
}

proof fn float_text_twice(text: Seq<char>)
    ensures
        float_text(float_text(text)) == float_text(text),
{
    if let Some(bits) = read_double(text) {
        if finite(bits) {
            written_number_reads_back(bits);
        }
    }
}

proof fn lowered_twice(text: Seq<char>)
    ensures
        lowered(lowered(text)) == lowered(text),
{
    assert(lowered(lowered(text)) =~= lowered(text));
}

proof fn canonical_text(value: ValueModel)
    requires
        !(value is List),
    ensures
        value_text(canonical_scalar(value)) == value_text(value),
{
    match value {
        ValueModel::Integer(text) => integer_text_twice(text),
        ValueModel::Float(text) => float_text_twice(text),
        ValueModel::Bytes { digits, .. } => lowered_twice(digits),
        _ => {},
    }
}

proof fn same_items(read: Seq<Spanned<ValueModel>>, wrote: Seq<Spanned<ValueModel>>, count: nat)
    requires
        read.len() == wrote.len(),
        count <= read.len(),
        forall|i: int| 0 <= i < wrote.len() ==> writable_scalar((#[trigger] wrote[i]).value),
        forall|i: int|
            0 <= i < wrote.len() ==> (#[trigger] read[i]).value == canonical_scalar(wrote[i].value),
    ensures
        items_text(read, count) == items_text(wrote, count),
    decreases count,
{
    if count > 0 {
        same_items(read, wrote, (count - 1) as nat);
        assert(read[count - 1].value == canonical_scalar(wrote[count - 1].value));
        assert(writable_scalar(wrote[count - 1].value));
        canonical_text(wrote[count - 1].value);
        assert(read[0].value == canonical_scalar(wrote[0].value));
        assert(writable_scalar(wrote[0].value));
        canonical_text(wrote[0].value);
    }
}

proof fn same_value_text(read: ValueModel, wrote: ValueModel)
    requires
        writable_value(wrote),
        same_value(read, wrote),
    ensures
        value_text(read) == value_text(wrote),
{
    match wrote {
        ValueModel::List(items) => {
            let found = read->List_0;
            same_items(found, items, items.len());
        },
        _ => canonical_text(wrote),
    }
}

// -- Properties --------------------------------------------------------------------

/// The labels that a property lists are written in order, the same ones as stand there.
pub proof fn labels_are_written_in_order(property: PropertyModel)
    requires
        property.key.value == "labels"@,
        property.value.value matches ValueModel::List(items) && all_strings(items),
    ensures
        property.value.value matches ValueModel::List(items) && (shown_value(property) matches
            ValueModel::List(wrote) && all_strings(wrote) && in_order::<Spanned<String>>(
            strings_of(wrote),
        ) && strings_of(wrote).to_multiset() == strings_of(items).to_multiset()),
{
    let strings = strings_of(property.value.value->List_0);
    let all = sorted::<Spanned<String>>(strings);
    let wrote = shown_value(property)->List_0;
    assert(strings_of(wrote) =~= all);
    sorted_is_in_order::<Spanned<String>>(strings);
    sorted_keeps_items::<Spanned<String>>(strings);
}

/// A value that was read back as it was written is written so again.
proof fn shown_again(read: PropertyModel, wrote: PropertyModel)
    requires
        same_property(read, wrote),
    ensures
        same_value(shown_value(read), shown_value(wrote)),
{
    if let ValueModel::List(found) = read.value.value {
        let items = wrote.value.value->List_0;
        if read.key.value == "labels"@ {
            if all_strings(items) {
                let strings = strings_of(items);
                let all = sorted::<Spanned<String>>(strings);
                let again = strings_of(found);
                let shown = shown_value(wrote)->List_0;
                assert forall|i: int| 0 <= i < found.len() implies (#[trigger] found[i]).value
                    == ValueModel::String(all[i].value) by {
                    assert(shown[i].value == ValueModel::String(all[i].value));
                }
                assert(all_strings(found));
                stays_sorted::<Spanned<String>>(again, strings);
            } else {
                let k = choose|k: int| 0 <= k < items.len() && !((#[trigger] items[k]).value is String);
                assert(found[k].value == canonical_scalar(items[k].value));
                assert(!all_strings(found));
            }
        }
    }
}

proof fn same_properties(depth: nat, read: Seq<PropertyModel>, wrote: Seq<PropertyModel>, count: int)
    requires
        read.len() == wrote.len(),
        0 <= count <= read.len(),
        forall|i: int| 0 <= i < wrote.len() ==> writable_property(#[trigger] wrote[i]),
        forall|i: int| 0 <= i < wrote.len() ==> same_property(#[trigger] read[i], wrote[i]),
    ensures
        properties_text(depth, read, count) == properties_text(depth, wrote, count),
    decreases count,
{
    if count > 0 {
        same_properties(depth, read, wrote, count - 1);
        let a = read[count - 1];
        let b = wrote[count - 1];
        assert(same_property(a, b) && writable_property(b));
        shown_again(a, b);
        shown_is_writable(b);
        same_value_text(shown_value(a), shown_value(b));
        same_own_lines(depth, a.comments.leading, b.comments.leading);
        same_trailing(
            b.key.value + ": "@ + value_text(shown_value(b)) + separator(count == wrote.len()),
            a.comments,
            b.comments,
        );
    }
}

// -- Evidence ----------------------------------------------------------------------

proof fn same_evidence_text(read: EvidenceValueModel, wrote: EvidenceValueModel)
    requires
        same_evidence(read, wrote),
    ensures
        evidence_value_text(read) == evidence_value_text(wrote),
{
    if let EvidenceValueModel::Enumerator { score, .. } = wrote {
        if let Some(text) = score {
            float_text_twice(text);
        }
    }
}

proof fn same_evidence_fields(
    depth: nat,
    read: Seq<EvidenceFieldModel>,
    wrote: Seq<EvidenceFieldModel>,
    count: int,
)
    requires
        read.len() == wrote.len(),
        0 <= count <= read.len(),
        forall|i: int| 0 <= i < wrote.len() ==> same_evidence_field(#[trigger] read[i], wrote[i]),
    ensures
        evidence_fields_text(depth, read, count) == evidence_fields_text(depth, wrote, count),
    decreases count,
{
    if count > 0 {
        same_evidence_fields(depth, read, wrote, count - 1);
        let a = read[count - 1];
        let b = wrote[count - 1];
        assert(same_evidence_field(a, b));
        same_evidence_text(a.value.value, b.value.value);
        same_own_lines(depth, a.comments.leading, b.comments.leading);
        same_trailing(
            b.key.value + ": "@ + evidence_value_text(b.value.value) + separator(
                count == wrote.len(),
            ),
            a.comments,
            b.comments,
        );
    }
}

proof fn same_evidence_block_text(depth: nat, read: EvidenceBlockModel, wrote: EvidenceBlockModel)
    requires
        same_evidence_block(read, wrote),
    ensures
        evidence_text(depth, read) == evidence_text(depth, wrote),
{
    let fields = sorted::<EvidenceField>(wrote.fields);
    sorted_length::<EvidenceField>(wrote.fields);
    assert forall|i: int, j: int| 0 <= i < j < read.fields.len() implies EvidenceField::before(
        #[trigger] read.fields[j],
        #[trigger] read.fields[i],
    ) == EvidenceField::before(fields[j], fields[i]) by {
        assert(same_evidence_field(read.fields[j], fields[j]));
        assert(same_evidence_field(read.fields[i], fields[i]));
    }
    stays_sorted::<EvidenceField>(read.fields, wrote.fields);
    same_evidence_fields(depth + 1, read.fields, fields, fields.len() as int);
    same_own_lines(depth + 1, read.block_comments, wrote.block_comments);
    same_own_lines(depth, read.comments.leading, wrote.comments.leading);
    same_block(
        depth,
        "@evidence"@,
        read.comments,
        wrote.comments,
        evidence_is_empty(wrote),
        evidence_fields_text(depth + 1, fields, fields.len() as int) + own_lines(
            depth + 1,
            wrote.block_comments,
        ),
    );
}

proof fn same_evidence_blocks(
    depth: nat,
    read: Seq<EvidenceBlockModel>,
    wrote: Seq<EvidenceBlockModel>,
    count: int,
)
    requires
        read.len() == wrote.len(),
        0 <= count <= read.len(),
        forall|i: int| 0 <= i < wrote.len() ==> same_evidence_block(#[trigger] read[i], wrote[i]),
    ensures
        evidence_blocks_text(depth, read, count) == evidence_blocks_text(depth, wrote, count),
    decreases count,
{
    if count > 0 {
        same_evidence_blocks(depth, read, wrote, count - 1);
        assert(same_evidence_block(read[count - 1], wrote[count - 1]));
        same_evidence_block_text(depth, read[count - 1], wrote[count - 1]);
    }
}

// -- Contributions -----------------------------------------------------------------

proof fn same_contribution_text(
    depth: nat,
    read: ContributionBlockModel,
    wrote: ContributionBlockModel,
)
    requires
        same_contribution(read, wrote),
    ensures
        contribution_text(depth, read) == contribution_text(depth, wrote),
        contribution_key(read) == contribution_key(wrote),
{
    same_evidence_blocks(depth + 1, read.evidence, wrote.evidence, wrote.evidence.len() as int);
    same_closing(depth + 1, read.block_comments, wrote.block_comments, wrote.evidence.len() > 0);
    same_own_lines(depth, read.comments.leading, wrote.comments.leading);
    assert(owner_text(read.owner) == owner_text(wrote.owner));
    assert(contribution_head(read) == contribution_head(wrote));
    assert(owner_key(read.owner) == owner_key(wrote.owner));
    same_block(
        depth,
        contribution_head(wrote),
        read.comments,
        wrote.comments,
        contribution_is_empty(wrote),
        evidence_blocks_text(depth + 1, wrote.evidence, wrote.evidence.len() as int)
            + closing_comments(depth + 1, wrote.block_comments, wrote.evidence.len() > 0),
    );
}

proof fn same_contributions(
    depth: nat,
    read: Seq<ContributionBlockModel>,
    wrote: Seq<ContributionBlockModel>,
    count: int,
)
    requires
        read.len() == wrote.len(),
        0 <= count <= read.len(),
        forall|i: int| 0 <= i < wrote.len() ==> same_contribution(#[trigger] read[i], wrote[i]),
    ensures
        contributions_text(depth, read, count) == contributions_text(depth, wrote, count),
    decreases count,
{
    if count > 0 {
        same_contributions(depth, read, wrote, count - 1);
        assert(same_contribution(read[count - 1], wrote[count - 1]));
        same_contribution_text(depth, read[count - 1], wrote[count - 1]);
    }
}

// -- Records -----------------------------------------------------------------------

proof fn same_record_text(head: Seq<char>, read: RecordBodyModel, wrote: RecordBodyModel)
    requires
        writable_record(wrote),
        same_record(read, wrote),
    ensures
        record_text(head, read) == record_text(head, wrote),
{
    let properties = sorted::<Property>(wrote.properties);
    let contributions = sorted::<ContributionBlock>(wrote.contributions);
    sorted_length::<Property>(wrote.properties);
    sorted_length::<ContributionBlock>(wrote.contributions);
    assert forall|i: int, j: int| 0 <= i < j < read.properties.len() implies Property::before(
        #[trigger] read.properties[j],
        #[trigger] read.properties[i],
    ) == Property::before(properties[j], properties[i]) by {
        assert(same_property(read.properties[j], properties[j]));
        assert(same_property(read.properties[i], properties[i]));
    }
    stays_sorted::<Property>(read.properties, wrote.properties);
    assert forall|i: int, j: int|
        0 <= i < j < read.contributions.len() implies ContributionBlock::before(
        #[trigger] read.contributions[j],
        #[trigger] read.contributions[i],
    ) == ContributionBlock::before(contributions[j], contributions[i]) by {
        assert(same_contribution(read.contributions[j], contributions[j]));
        assert(same_contribution(read.contributions[i], contributions[i]));
        same_contribution_text(1, read.contributions[j], contributions[j]);
        same_contribution_text(1, read.contributions[i], contributions[i]);
    }
    stays_sorted::<ContributionBlock>(read.contributions, wrote.contributions);
    sorted_all::<Property>(wrote.properties, |p: PropertyModel| writable_property(p));
    assert forall|i: int| 0 <= i < properties.len() implies writable_property(
        #[trigger] properties[i],
    ) by {
        assert((|p: PropertyModel| writable_property(p))(properties[i]));
    }
    same_properties(1, read.properties, properties, properties.len() as int);
    same_contributions(1, read.contributions, contributions, contributions.len() as int);
    same_closing(1, read.block_comments, wrote.block_comments, wrote.contributions.len() > 0);
    assert(record_inside(read) == record_inside(wrote));
    same_block(
        0,
        head,
        read.comments,
        wrote.comments,
        record_is_empty(wrote),
        record_inside(wrote),
    );
}

/// What `find_property` finds is the first property with the key.
proof fn first_property(items: Seq<PropertyModel>, key: Seq<char>, at: int)
    requires
        0 <= at <= items.len(),
    ensures
        match find_property(items, key, at) {
            Some(found) => at <= found < items.len() && items[found].key.value == key && forall|i: int|
                at <= i < found ==> (#[trigger] items[i]).key.value != key,
            None => forall|i: int| at <= i < items.len() ==> (#[trigger] items[i]).key.value != key,
        },
    decreases items.len() - at,
{
    if at < items.len() {
        first_property(items, key, at + 1);
    }
}

/// Whether two lists have the same first property with a key.
spec fn same_first(read: Seq<PropertyModel>, wrote: Seq<PropertyModel>, key: Seq<char>) -> bool {
    match (find_property(read, key, 0), find_property(wrote, key, 0)) {
        (Some(a), Some(b)) => read[a] == wrote[b],
        (None, None) => true,
        _ => false,
    }
}

/// Sorting keeps which property with a key is the first.
proof fn first_stays_first(items: Seq<PropertyModel>, key: Seq<char>)
    ensures
        same_first(sorted::<Property>(items), items, key),
    decreases items.len(),
{
    if items.len() > 0 {
        let front = items.drop_last();
        let last = items.last();
        let rest = sorted::<Property>(front);
        let all = sorted::<Property>(items);
        let at = place::<Property>(rest, rest.len() as int, last);
        first_stays_first(front, key);
        sorted_length::<Property>(front);
        sorted_is_in_order::<Property>(front);
        place_bounds::<Property>(rest, rest.len() as int, last);
        place_splits::<Property>(rest, rest.len() as int, last);
        first_property(front, key, 0);
        first_property(rest, key, 0);
        first_property(items, key, 0);
        first_property(all, key, 0);
        assert forall|i: int| 0 <= i < front.len() implies items[i] == #[trigger] front[i] by {}
        assert forall|i: int| 0 <= i < all.len() implies #[trigger] all[i] == (if i < at {
            rest[i]
        } else if i == at {
            last
        } else {
            rest[i - 1]
        }) by {}
        match find_property(rest, key, 0) {
            Some(found) => {
                let spot = if found < at {
                    found
                } else {
                    found + 1
                };
                assert(all[spot] == rest[found]);
                if found >= at {
                    assert(Property::before(last, rest[found]));
                    if last.key.value == key {
                        texts_are_asymmetric(last.key.value, rest[found].key.value);
                    }
                }
                let first = find_property(all, key, 0)->0;
                assert(first == spot) by {
                    if first < spot {
                        if first < at {
                            assert(all[first] == rest[first]);
                        } else if first > at {
                            assert(all[first] == rest[first - 1]);
                        }
                    }
                }
                let b = find_property(front, key, 0)->0;
                let c = find_property(items, key, 0)->0;
                assert(items[b] == front[b]);
                assert(c == b) by {
                    if c < b {
                        assert(front[c] == items[c]);
                    }
                }
            },
            None => {
                if last.key.value == key {
                    assert(all[at] == last);
                    let first = find_property(all, key, 0)->0;
                    assert(first == at) by {
                        if first < at {
                            assert(all[first] == rest[first]);
                        } else if first > at {
                            assert(all[first] == rest[first - 1]);
                        }
                    }
                    let c = find_property(items, key, 0)->0;
                    assert(items[items.len() - 1] == last);
                    assert(c == items.len() - 1) by {
                        if c < items.len() - 1 {
                            assert(front[c] == items[c]);
                        }
                    }
                } else {
                    if let Some(first) = find_property(all, key, 0) {
                        if first < at {
                            assert(all[first] == rest[first]);
                        } else if first > at {
                            assert(all[first] == rest[first - 1]);
                        }
                    }
                    if let Some(c) = find_property(items, key, 0) {
                        if c < items.len() - 1 {
                            assert(front[c] == items[c]);
                        }
                    }
                }
            },
        }
    }
}

/// A record that was read back states the identifier that was written.
proof fn same_stated_id(read: RecordBodyModel, wrote: RecordBodyModel)
    requires
        writable_record(wrote),
        same_record(read, wrote),
    ensures
        stated_id(read) == stated_id(wrote),
{
    let key = "id"@;
    let all = sorted::<Property>(wrote.properties);
    first_stays_first(wrote.properties, key);
    first_property(all, key, 0);
    first_property(read.properties, key, 0);
    match (find_property(read.properties, key, 0), find_property(all, key, 0)) {
        (Some(a), Some(b)) => {
            assert(same_property(read.properties[a], all[a]));
            assert(same_property(read.properties[b], all[b]));
            assert(a == b) by {
                if a < b {
                    assert(all[a].key.value != key);
                } else if b < a {
                    assert(read.properties[b].key.value != key);
                }
            }
            first_property(wrote.properties, key, 0);
            let c = find_property(wrote.properties, key, 0)->0;
            assert(writable_property(wrote.properties[c]));
        },
        (Some(a), None) => {
            assert(same_property(read.properties[a], all[a]));
        },
        (None, Some(b)) => {
            assert(same_property(read.properties[b], all[b]));
        },
        (None, None) => {},
    }
}

// -- Declarations ------------------------------------------------------------------

proof fn same_fields(read: Seq<SchemaFieldModel>, wrote: Seq<SchemaFieldModel>, count: int)
    requires
        read.len() == wrote.len(),
        0 <= count <= read.len(),
        forall|i: int| 0 <= i < wrote.len() ==> same_field(#[trigger] read[i], wrote[i]),
    ensures
        schema_fields_text(read, count) == schema_fields_text(wrote, count),
    decreases count,
{
    if count > 0 {
        same_fields(read, wrote, count - 1);
        let a = read[count - 1];
        let b = wrote[count - 1];
        assert(same_field(a, b));
        same_own_lines(1, a.comments.leading, b.comments.leading);
        same_trailing(
            b.key.value + (if b.optional {
                "?"@
            } else {
                Seq::empty()
            }) + ": "@ + b.field_type.value.text() + separator(count == wrote.len()),
            a.comments,
            b.comments,
        );
    }
}

proof fn same_schema_text(read: SchemaDeclarationModel, wrote: SchemaDeclarationModel)
    requires
        same_schema(read, wrote),
    ensures
        schema_text(read) == schema_text(wrote),
{
    let fields = sorted::<SchemaField>(wrote.fields);
    sorted_length::<SchemaField>(wrote.fields);
    assert forall|i: int, j: int| 0 <= i < j < read.fields.len() implies SchemaField::before(
        #[trigger] read.fields[j],
        #[trigger] read.fields[i],
    ) == SchemaField::before(fields[j], fields[i]) by {
        assert(same_field(read.fields[j], fields[j]));
        assert(same_field(read.fields[i], fields[i]));
    }
    stays_sorted::<SchemaField>(read.fields, wrote.fields);
    same_fields(read.fields, fields, fields.len() as int);
    same_own_lines(1, read.block_comments, wrote.block_comments);
    same_own_lines(0, read.comments.leading, wrote.comments.leading);
    assert(schema_head(read) == schema_head(wrote));
    same_block(
        0,
        schema_head(wrote),
        read.comments,
        wrote.comments,
        schema_is_empty(wrote),
        schema_fields_text(fields, fields.len() as int) + own_lines(1, wrote.block_comments),
    );
}

proof fn same_names(
    read: Seq<Spanned<Seq<char>>>,
    wrote: Seq<Spanned<Seq<char>>>,
    count: int,
)
    requires
        read.len() == wrote.len(),
        0 <= count <= read.len(),
        forall|i: int| 0 <= i < wrote.len() ==> (#[trigger] read[i]).value == wrote[i].value,
    ensures
        names_text(read, count) == names_text(wrote, count),
    decreases count,
{
    if count > 0 {
        same_names(read, wrote, count - 1);
        assert(read[count - 1].value == wrote[count - 1].value);
        assert(read[0].value == wrote[0].value);
    }
}

proof fn same_node_text(read: NodeDeclarationModel, wrote: NodeDeclarationModel)
    requires
        writable_node(wrote),
        same_node(read, wrote),
    ensures
        node_text(read) == node_text(wrote),
{
    let names = sorted::<Spanned<String>>(wrote.schemas);
    sorted_length::<Spanned<String>>(wrote.schemas);
    assert forall|i: int, j: int| 0 <= i < j < read.schemas.len() implies Spanned::<
        String,
    >::before(#[trigger] read.schemas[j], #[trigger] read.schemas[i]) == Spanned::<String>::before(
        names[j],
        names[i],
    ) by {
        assert(read.schemas[j].value == names[j].value);
        assert(read.schemas[i].value == names[i].value);
    }
    stays_sorted::<Spanned<String>>(read.schemas, wrote.schemas);
    same_names(read.schemas, names, names.len() as int);
    assert(node_head(read) == node_head(wrote));
    same_own_lines(0, read.record.comments.leading, wrote.record.comments.leading);
    same_record_text(node_head(wrote), read.record, wrote.record);
}

proof fn same_edge_text(read: EdgeDeclarationModel, wrote: EdgeDeclarationModel)
    requires
        writable_edge(wrote),
        same_edge(read, wrote),
    ensures
        edge_text(read) == edge_text(wrote),
        edge_key(read) == edge_key(wrote),
{
    assert(endpoint_text(read.source) == endpoint_text(wrote.source));
    assert(endpoint_text(read.target) == endpoint_text(wrote.target));
    assert(edge_head(read) == edge_head(wrote));
    same_own_lines(0, read.record.comments.leading, wrote.record.comments.leading);
    same_record_text(edge_head(wrote), read.record, wrote.record);
    same_stated_id(read.record, wrote.record);
}

proof fn same_link_text(read: LinkDeclarationModel, wrote: LinkDeclarationModel)
    requires
        same_link(read, wrote),
    ensures
        link_text(read) == link_text(wrote),
{
    same_own_lines(0, read.comments.leading, wrote.comments.leading);
    same_trailing(
        "@link "@ + literal(wrote.source.value) + (match wrote.alias {
            Some(alias) => " as "@ + alias.value,
            None => Seq::empty(),
        }),
        read.comments,
        wrote.comments,
    );
}

proof fn same_links(read: Seq<LinkDeclarationModel>, wrote: Seq<LinkDeclarationModel>, count: int)
    requires
        read.len() == wrote.len(),
        0 <= count <= read.len(),
        forall|i: int| 0 <= i < wrote.len() ==> same_link(#[trigger] read[i], wrote[i]),
    ensures
        links_text(read, count) == links_text(wrote, count),
    decreases count,
{
    if count > 0 {
        same_links(read, wrote, count - 1);
        assert(same_link(read[count - 1], wrote[count - 1]));
        same_link_text(read[count - 1], wrote[count - 1]);
    }
}

proof fn same_schemas(
    read: Seq<SchemaDeclarationModel>,
    wrote: Seq<SchemaDeclarationModel>,
    count: int,
)
    requires
        read.len() == wrote.len(),
        0 <= count <= read.len(),
        forall|i: int| 0 <= i < wrote.len() ==> same_schema(#[trigger] read[i], wrote[i]),
    ensures
        schemas_text(read, count) == schemas_text(wrote, count),
    decreases count,
{
    if count > 0 {
        same_schemas(read, wrote, count - 1);
        assert(same_schema(read[count - 1], wrote[count - 1]));
        same_schema_text(read[count - 1], wrote[count - 1]);
    }
}

proof fn same_nodes(read: Seq<NodeDeclarationModel>, wrote: Seq<NodeDeclarationModel>, count: int)
    requires
        read.len() == wrote.len(),
        0 <= count <= read.len(),
        forall|i: int| 0 <= i < wrote.len() ==> writable_node(#[trigger] wrote[i]),
        forall|i: int| 0 <= i < wrote.len() ==> same_node(#[trigger] read[i], wrote[i]),
    ensures
        nodes_text(read, count) == nodes_text(wrote, count),
    decreases count,
{
    if count > 0 {
        same_nodes(read, wrote, count - 1);
        assert(same_node(read[count - 1], wrote[count - 1]) && writable_node(wrote[count - 1]));
        same_node_text(read[count - 1], wrote[count - 1]);
    }
}

proof fn same_edges(read: Seq<EdgeDeclarationModel>, wrote: Seq<EdgeDeclarationModel>, count: int)
    requires
        read.len() == wrote.len(),
        0 <= count <= read.len(),
        forall|i: int| 0 <= i < wrote.len() ==> writable_edge(#[trigger] wrote[i]),
        forall|i: int| 0 <= i < wrote.len() ==> same_edge(#[trigger] read[i], wrote[i]),
    ensures
        edges_text(read, count) == edges_text(wrote, count),
    decreases count,
{
    if count > 0 {
        same_edges(read, wrote, count - 1);
        assert(same_edge(read[count - 1], wrote[count - 1]) && writable_edge(wrote[count - 1]));
        same_edge_text(read[count - 1], wrote[count - 1]);
    }
}

// -- Files -------------------------------------------------------------------------

proof fn same_link_group(read: SourceFileModel, wrote: SourceFileModel)
    requires
        same_file(read, wrote),
    ensures
        link_group(read) == link_group(wrote),
{
    let links = sorted::<LinkDeclaration>(wrote.links);
    sorted_length::<LinkDeclaration>(wrote.links);
    assert forall|i: int, j: int| 0 <= i < j < read.links.len() implies LinkDeclaration::before(
        #[trigger] read.links[j],
        #[trigger] read.links[i],
    ) == LinkDeclaration::before(links[j], links[i]) by {
        assert(same_link(read.links[j], links[j]));
        assert(same_link(read.links[i], links[i]));
    }
    stays_sorted::<LinkDeclaration>(read.links, wrote.links);
    same_links(read.links, links, links.len() as int);
}

proof fn same_schema_group(read: SourceFileModel, wrote: SourceFileModel)
    requires
        same_file(read, wrote),
    ensures
        sorted::<SchemaDeclaration>(read.schemas) == read.schemas,
        read.schemas.len() == sorted::<SchemaDeclaration>(wrote.schemas).len(),
        schemas_text(read.schemas, read.schemas.len() as int) == schemas_text(
            sorted::<SchemaDeclaration>(wrote.schemas),
            read.schemas.len() as int,
        ),
{
    let all = sorted::<SchemaDeclaration>(wrote.schemas);
    assert forall|i: int, j: int|
        0 <= i < j < read.schemas.len() implies SchemaDeclaration::before(
        #[trigger] read.schemas[j],
        #[trigger] read.schemas[i],
    ) == SchemaDeclaration::before(all[j], all[i]) by {
        assert(same_schema(read.schemas[j], all[j]));
        assert(same_schema(read.schemas[i], all[i]));
    }
    stays_sorted::<SchemaDeclaration>(read.schemas, wrote.schemas);
    same_schemas(read.schemas, all, all.len() as int);
}

proof fn same_node_group(read: SourceFileModel, wrote: SourceFileModel)
    requires
        writable(wrote),
        same_file(read, wrote),
    ensures
        sorted::<NodeDeclaration>(read.nodes) == read.nodes,
        read.nodes.len() == sorted::<NodeDeclaration>(wrote.nodes).len(),
        nodes_text(read.nodes, read.nodes.len() as int) == nodes_text(
            sorted::<NodeDeclaration>(wrote.nodes),
            read.nodes.len() as int,
        ),
{
    let all = sorted::<NodeDeclaration>(wrote.nodes);
    sorted_all::<NodeDeclaration>(wrote.nodes, |d: NodeDeclarationModel| writable_node(d));
    assert forall|i: int| 0 <= i < all.len() implies writable_node(#[trigger] all[i]) by {
        assert((|d: NodeDeclarationModel| writable_node(d))(all[i]));
    }
    assert forall|i: int, j: int| 0 <= i < j < read.nodes.len() implies NodeDeclaration::before(
        #[trigger] read.nodes[j],
        #[trigger] read.nodes[i],
    ) == NodeDeclaration::before(all[j], all[i]) by {
        assert(same_node(read.nodes[j], all[j]));
        assert(same_node(read.nodes[i], all[i]));
    }
    stays_sorted::<NodeDeclaration>(read.nodes, wrote.nodes);
    same_nodes(read.nodes, all, all.len() as int);
}

proof fn same_edge_group(read: SourceFileModel, wrote: SourceFileModel)
    requires
        writable(wrote),
        same_file(read, wrote),
    ensures
        sorted::<EdgeDeclaration>(read.edges) == read.edges,
        read.edges.len() == sorted::<EdgeDeclaration>(wrote.edges).len(),
        edges_text(read.edges, read.edges.len() as int) == edges_text(
            sorted::<EdgeDeclaration>(wrote.edges),
            read.edges.len() as int,
        ),
{
    let all = sorted::<EdgeDeclaration>(wrote.edges);
    sorted_all::<EdgeDeclaration>(wrote.edges, |d: EdgeDeclarationModel| writable_edge(d));
    assert forall|i: int| 0 <= i < all.len() implies writable_edge(#[trigger] all[i]) by {
        assert((|d: EdgeDeclarationModel| writable_edge(d))(all[i]));
    }
    assert forall|i: int, j: int| 0 <= i < j < read.edges.len() implies EdgeDeclaration::before(
        #[trigger] read.edges[j],
        #[trigger] read.edges[i],
    ) == EdgeDeclaration::before(all[j], all[i]) by {
        assert(same_edge(read.edges[j], all[j]) && writable_edge(all[j]));
        assert(same_edge(read.edges[i], all[i]) && writable_edge(all[i]));
        same_edge_text(read.edges[j], all[j]);
        same_edge_text(read.edges[i], all[i]);
    }
    stays_sorted::<EdgeDeclaration>(read.edges, wrote.edges);
    same_edges(read.edges, all, all.len() as int);
}

/// A file that was read back is formatted as it was.
pub proof fn same_file_is_formatted_the_same(read: SourceFileModel, wrote: SourceFileModel)
    requires
        writable(wrote),
        same_file(read, wrote),
    ensures
        formatted(read) == formatted(wrote),
{
    same_link_group(read, wrote);
    same_schema_group(read, wrote);
    same_node_group(read, wrote);
    same_edge_group(read, wrote);
    same_own_lines(0, read.version_comments.leading, wrote.version_comments.leading);
    same_trailing(
        "@nost "@ + digits_of(wrote.version.value as nat),
        read.version_comments,
        wrote.version_comments,
    );
    assert(header_text(read) == header_text(wrote));
    same_closing(0, read.trailing_comments, wrote.trailing_comments, true);
}

/// Formatting is idempotent: what the formatter writes can be read, and formatting what was
/// read gives the same text, character for character.
pub proof fn formatting_twice_is_formatting_once(file: SourceFileModel)
    requires
        writable(file),
    ensures
        parsed(formatted(file)) matches Ok(again) && formatted(again) == formatted(file),
{
    formatted_file_reads_back(file);
    let again = parsed(formatted(file))->Ok_0;
    same_file_is_formatted_the_same(again, file);
}

} // verus!
