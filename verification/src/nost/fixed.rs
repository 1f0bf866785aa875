//! The text of a graph is a fixed point: it reads back as the graph, and the graph is
//! written as the same text again.

use super::ContributionBlock;
use super::ContributionBlockModel;
use super::EdgeDeclaration;
use super::EdgeDeclarationModel;
use super::EndpointModel;
use super::EvidenceBlockModel;
use super::EvidenceField;
use super::EvidenceFieldModel;
use super::EvidenceValueModel;
use super::LinkDeclaration;
use super::LinkDeclarationModel;
use super::NodeDeclaration;
use super::NodeDeclarationModel;
use super::Property;
use super::PropertyModel as WrittenProperty;
use super::RecordBodyModel;
use super::SchemaDeclaration;
use super::SchemaDeclarationModel;
use super::SourceFileModel;
use super::Spanned;
use super::ValueModel;
use super::clean::parsed_file_can_be_written;
use super::convert::confidence_of;
use super::convert::contribution_from;
use super::convert::contributions_from;
use super::convert::digest_of;
use super::convert::edge_added;
use super::convert::edge_id;
use super::convert::edges_built;
use super::convert::endpoint_added;
use super::convert::evidence_from;
use super::convert::evidence_list;
use super::convert::extra_labels;
use super::convert::fields_from;
use super::convert::find_field;
use super::convert::generated_names_are_names;
use super::convert::graph_from;
use super::convert::hex_of;
use super::convert::label_items;
use super::convert::labels_from;
use super::convert::link_from;
use super::convert::links_from;
use super::convert::method_of;
use super::convert::name_of;
use super::convert::named_labels;
use super::convert::no_parts;
use super::convert::node_added;
use super::convert::nodes_built;
use super::convert::optional_of;
use super::convert::optional_range;
use super::convert::owner_from;
use super::convert::owner_key;
use super::convert::part_added;
use super::convert::parts_from;
use super::convert::parts_of;
use super::convert::producer_of;
use super::convert::property_from;
use super::convert::scalar_from;
use super::convert::scalars_from;
use super::convert::schema_from;
use super::convert::schemas_from;
use super::convert::source_of;
use super::convert::supplied;
use super::convert::unit_from;
use super::convert::with_new;
use super::convert::Build;
use super::convert::ConversionErrorModel;
use super::convert::Parts;
use super::exchange::converted_graph_is_sound;
use super::exchange::fields_keep_values;
use super::exchange::first_value;
use super::exchange::kept_value;
use super::exchange::keys_differ;
use super::exchange::labels_read_back;
use super::exchange::name_leads_back;
use super::exchange::names_of;
use super::exchange::names_one_of;
use super::exchange::range_reads_back;
use super::exchange::scalar_reads_back;
use super::exchange::score_reads_back;
use super::exchange::sound_confidence;
use super::exchange::sound_contribution;
use super::exchange::sound_contributions;
use super::exchange::sound_edge;
use super::exchange::sound_evidence;
use super::exchange::sound_graph;
use super::exchange::sound_labels;
use super::exchange::sound_link;
use super::exchange::sound_node;
use super::exchange::sound_properties;
use super::exchange::sound_property;
use super::exchange::sound_scalar;
use super::exchange::sound_schema;
use super::exchange::sound_value;
use super::exchange::unit_reads_back;
use super::exchange::words_differ;
use super::export::chosen;
use super::export::declared_names;
use super::export::document_of;
use super::export::extra_part;
use super::export::labels_property;
use super::export::named_part;
use super::export::optional_field;
use super::export::ordinary_properties;
use super::export::owner_supplies;
use super::export::producer_fields;
use super::export::range_text;
use super::export::text_field;
use super::export::unplaced_all;
use super::export::written_confidence;
use super::export::written_contribution;
use super::export::written_contributions;
use super::export::written_edge;
use super::export::written_endpoint;
use super::export::written_evidence;
use super::export::written_field;
use super::export::written_fields;
use super::export::written_link;
use super::export::written_method;
use super::export::written_node;
use super::export::written_property;
use super::export::written_record;
use super::export::written_scalar;
use super::export::written_schema;
use super::export::written_schema_field;
use super::export::written_value;
use super::format::contribution_key;
use super::format::float_text;
use super::format::formatted;
use super::format::integer_text;
use super::lexer::hex_bytes;
use super::lexer::hex_value;
use super::lexer::hexadecimal;
use super::lexer::TokenKind;
use super::parser::parsed;
use super::parts::nameable;
use super::parts::sorted_all;
use super::parts::writable;
use super::parts::writable_contribution;
use super::parts::writable_edge;
use super::parts::writable_evidence;
use super::parts::writable_evidence_block;
use super::parts::writable_evidence_field;
use super::parts::writable_field;
use super::parts::writable_link;
use super::parts::writable_node;
use super::format::shown_value;
use super::format::string_items;
use super::format::strings_of;
use super::parts::writable_property;
use super::parts::writable_record;
use super::parts::writable_scalar;
use super::parts::writable_schema;
use super::parts::writable_value;
use super::reread::canonical_scalar;
use super::reread::formatted_file_reads_back;
use super::reread::same_contribution;
use super::reread::same_edge;
use super::reread::same_endpoint;
use super::reread::same_evidence;
use super::reread::same_evidence_block;
use super::reread::same_evidence_field;
use super::reread::same_field;
use super::reread::same_file;
use super::reread::same_link;
use super::reread::same_node;
use super::reread::same_property;
use super::reread::same_record;
use super::reread::same_schema;
use super::reread::same_value;
use super::written::hex_pairs;
use super::written::numeral;
use super::written::shown_double_is_numeral;
use super::written::shown_is_numeral;
use crate::contribution::Contribution;
use crate::contribution::ContributionModel;
use crate::decimal::lowered;
use crate::evidence::valid_score;
use crate::evidence::widened_score;
use crate::evidence::Confidence;
use crate::evidence::EvidenceModel;
use crate::evidence::Score;
use crate::evidence::SourceRange;
use crate::float::finite;
use crate::graph::Edge;
use crate::graph::EdgeModel;
use crate::graph::GraphModel;
use crate::graph::Node;
use crate::graph::NodeModel;
use crate::graph::ReferenceModel;
use crate::id::bytes_precede;
use crate::id::bytes_precede_total;
use crate::id::encoded;
use crate::id::half_at;
use crate::id::half_byte;
use crate::id::hex_digit;
use crate::id::hyphen_at;
use crate::id::place_of;
use crate::id::LocalEdgeId;
use crate::id::LocalNodeId;
use crate::id::SourceUnitId;
use crate::keeping::edges_differ;
use crate::link::LinkModel;
use crate::name::ascii_name;
use crate::name::first_break;
use crate::name::name_fault;
use crate::name::reserved;
use crate::name::Label;
use crate::name::PropertyKey;
use crate::number::shown;
use crate::number::shown_reads_back;
use crate::order::in_order;
use crate::order::keys_before;
use crate::order::place;
use crate::order::place_bounds;
use crate::order::place_splits;
use crate::order::sorted;
use crate::order::sorted_contains;
use crate::order::sorted_is_in_order;
use crate::order::sorted_is_stable;
use crate::order::sorted_keeps_items;
use crate::order::sorted_length;
use crate::order::texts_are_asymmetric;
use crate::order::Ordered;
use crate::property::fraction_run;
use crate::property::PropertyModel;
use crate::property::PropertyValue;
use crate::property::ScalarModel;
use crate::schema::Schema;
use crate::schema::SchemaField;
use crate::schema::SchemaFieldModel;
use crate::schema::SchemaModel;
use crate::shortest::shown_double;
use crate::shortest::written_number_reads_back;
use crate::single::widened_is_finite;
use crate::single::zero_widens;
use crate::text::precedes;
use crate::text::precedes_irreflexive;
use crate::unicode::xid_continue;
use crate::link::Link;
use crate::order::item_moves_to_the_end;
use crate::order::last_goes_last;
use crate::order::keys_are_total;
use super::format::stated_id;
use super::format::edge_key;
use vstd::prelude::*;
use vstd::seq_lib::group_to_multiset_ensures;

verus! {

// -- Picking and sorting -----------------------------------------------------------

/// The items of a kind, in the order in which they stand.
pub open spec fn picked<A>(items: Seq<A>, wanted: spec_fn(A) -> bool) -> Seq<A>
    decreases items.len(),
{
    if items.len() == 0 {
        items
    } else {
        let front = picked(items.drop_last(), wanted);
        if wanted(items.last()) {
            front.push(items.last())
        } else {
            front
        }
    }
}

proof fn picked_of_both<A>(first: Seq<A>, second: Seq<A>, wanted: spec_fn(A) -> bool)
    ensures
        picked(first + second, wanted) == picked(first, wanted) + picked(second, wanted),
    decreases second.len(),
{
    if second.len() == 0 {
        assert(first + second =~= first);
        assert(picked(first, wanted) + second =~= picked(first, wanted));
    } else {
        let both = first + second;
        assert(both.drop_last() =~= first + second.drop_last());
        assert(both.last() == second.last());
        picked_of_both(first, second.drop_last(), wanted);
        assert(picked(both, wanted) =~= picked(first, wanted) + picked(second, wanted));
    }
}

proof fn picked_holds<A>(items: Seq<A>, wanted: spec_fn(A) -> bool, holds: spec_fn(A) -> bool)
    requires
        forall|i: int| 0 <= i < items.len() ==> holds(#[trigger] items[i]),
    ensures
        forall|i: int|
            0 <= i < picked(items, wanted).len() ==> holds(#[trigger] picked(items, wanted)[i])
                && wanted(picked(items, wanted)[i]),
    decreases items.len(),
{
    if items.len() > 0 {
        let front = items.drop_last();
        assert forall|i: int| 0 <= i < front.len() implies holds(#[trigger] front[i]) by {
            assert(front[i] == items[i]);
        }
        picked_holds(front, wanted, holds);
        assert(holds(items[items.len() - 1]));
        let found = picked(items, wanted);
        assert forall|i: int| 0 <= i < found.len() implies holds(#[trigger] found[i]) && wanted(
            found[i],
        ) by {
            if i < picked(front, wanted).len() {
                assert(found[i] == picked(front, wanted)[i]);
            }
        }
    }
}

proof fn picked_all<A>(items: Seq<A>, wanted: spec_fn(A) -> bool)
    requires
        forall|i: int| 0 <= i < items.len() ==> wanted(#[trigger] items[i]),
    ensures
        picked(items, wanted) == items,
    decreases items.len(),
{
    if items.len() > 0 {
        let front = items.drop_last();
        assert forall|i: int| 0 <= i < front.len() implies wanted(#[trigger] front[i]) by {
            assert(front[i] == items[i]);
        }
        picked_all(front, wanted);
        assert(wanted(items[items.len() - 1]));
        assert(front.push(items.last()) =~= items);
    }
}

proof fn picked_none<A>(items: Seq<A>, wanted: spec_fn(A) -> bool)
    requires
        forall|i: int| 0 <= i < items.len() ==> !wanted(#[trigger] items[i]),
    ensures
        picked(items, wanted) == Seq::<A>::empty(),
    decreases items.len(),
{
    if items.len() > 0 {
        let front = items.drop_last();
        assert forall|i: int| 0 <= i < front.len() implies !wanted(#[trigger] front[i]) by {
            assert(front[i] == items[i]);
        }
        picked_none(front, wanted);
        assert(!wanted(items[items.len() - 1]));
    } else {
        assert(items =~= Seq::<A>::empty());
    }
}

proof fn picked_one_more<A>(items: Seq<A>, wanted: spec_fn(A) -> bool, at: int)
    requires
        0 <= at < items.len(),
    ensures
        picked(items.take(at + 1), wanted) == (if wanted(items[at]) {
            picked(items.take(at), wanted).push(items[at])
        } else {
            picked(items.take(at), wanted)
        }),
        picked(items, wanted) == picked(items.take(at + 1), wanted) + picked(
            items.skip(at + 1),
            wanted,
        ),
{
    let more = items.take(at + 1);
    assert(more.drop_last() =~= items.take(at));
    assert(more.last() == items[at]);
    picked_of_both(more, items.skip(at + 1), wanted);
    assert(more + items.skip(at + 1) =~= items);
}

proof fn order_holds<T: Ordered>(items: Seq<T::V>, first: int, second: int)
    requires
        in_order::<T>(items),
        0 <= first < second < items.len(),
    ensures
        !T::before(items[second], items[first]),
{
}

proof fn place_is<T: Ordered>(items: Seq<T::V>, count: int, item: T::V, at: int)
    requires
        0 <= at <= count <= items.len(),
        forall|i: int| at <= i < count ==> T::before(item, #[trigger] items[i]),
        forall|i: int| 0 <= i < at ==> !T::before(item, #[trigger] items[i]),
    ensures
        place::<T>(items, count, item) == at,
    decreases count,
{
    if count > at {
        assert(T::before(item, items[count - 1]));
        place_is::<T>(items, count - 1, item, at);
    } else if count > 0 {
        assert(!T::before(item, items[count - 1]));
    }
}

/// Picking from sorted items is sorting what is picked.
proof fn sorting_keeps_picks<T: Ordered>(items: Seq<T::V>, wanted: spec_fn(T::V) -> bool)
    ensures
        picked(sorted::<T>(items), wanted) == sorted::<T>(picked(items, wanted)),
    decreases items.len(),
{
    if items.len() > 0 {
        let front = items.drop_last();
        let item = items.last();
        let rest = sorted::<T>(front);
        let at = place::<T>(rest, rest.len() as int, item);
        sorting_keeps_picks::<T>(front, wanted);
        sorted_is_in_order::<T>(front);
        place_bounds::<T>(rest, rest.len() as int, item);
        place_splits::<T>(rest, rest.len() as int, item);
        let ahead = rest.take(at);
        let behind = rest.skip(at);
        assert(rest =~= ahead + behind);
        assert(rest.insert(at, item) =~= ahead + seq![item] + behind);
        picked_of_both(ahead, behind, wanted);
        picked_of_both(ahead + seq![item], behind, wanted);
        picked_of_both(ahead, seq![item], wanted);
        let a = picked(ahead, wanted);
        let b = picked(behind, wanted);
        let one = seq![item];
        if wanted(item) {
            picked_all(one, wanted);
            picked_holds(ahead, wanted, |x: T::V| !T::before(item, x));
            picked_holds(behind, wanted, |x: T::V| T::before(item, x));
            let all = a + b;
            assert forall|i: int| a.len() <= i < all.len() implies T::before(
                item,
                #[trigger] all[i],
            ) by {
                assert(all[i] == b[i - a.len()]);
                assert((|x: T::V| T::before(item, x))(b[i - a.len()]));
            }
            assert forall|i: int| 0 <= i < a.len() implies !T::before(item, #[trigger] all[i]) by {
                assert(all[i] == a[i]);
                assert((|x: T::V| !T::before(item, x))(a[i]));
            }
            place_is::<T>(all, all.len() as int, item, a.len() as int);
            let chosen = picked(items, wanted);
            assert(chosen.drop_last() =~= picked(front, wanted));
            assert(chosen.last() == item);
            assert(all.insert(a.len() as int, item) =~= a + one + b);
        } else {
            picked_none(one, wanted);
            assert(a + Seq::<T::V>::empty() + b =~= a + b);
        }
    }
}

// -- Texts in the order of their bytes ---------------------------------------------

proof fn precedes_at(left: Seq<char>, right: Seq<char>, at: int)
    requires
        0 <= at < left.len(),
        at < right.len(),
        left[at] < right[at],
        forall|i: int| 0 <= i < at ==> #[trigger] left[i] == right[i],
    ensures
        precedes(left, right),
    decreases at,
{
    if at > 0 {
        assert(left[0] == right[0]);
        let l = left.drop_first();
        let r = right.drop_first();
        assert(l[at - 1] == left[at] && r[at - 1] == right[at]);
        assert forall|i: int| 0 <= i < at - 1 implies #[trigger] l[i] == r[i] by {
            assert(l[i] == left[i + 1] && r[i] == right[i + 1]);
        }
        precedes_at(l, r, at - 1);
    }
}

proof fn digits_rise(low: int, high: int)
    requires
        0 <= low < high < 16,
    ensures
        hex_digit(low) < hex_digit(high),
{
}

/// Where two lists of bytes first differ, half a byte each.
proof fn halves_rise(left: Seq<u8>, right: Seq<u8>) -> (half: int)
    requires
        bytes_precede(left, right),
    ensures
        0 <= half < 2 * left.len(),
        half < 2 * right.len(),
        0 <= half_byte(left, half) < half_byte(right, half) < 16,
        forall|i: int| 0 <= i < half ==> half_byte(left, i) == half_byte(right, i),
{
    let at = choose|at: int|
        0 <= at < left.len() && at < right.len() && #[trigger] left[at] < right[at] && forall|i: int|
            0 <= i < at ==> left[i] == right[i];
    let half = if left[at] as int / 16 < right[at] as int / 16 {
        2 * at
    } else {
        2 * at + 1
    };
    assert forall|i: int| 0 <= i < half implies half_byte(left, i) == half_byte(right, i) by {
        if i / 2 < at {
            assert(left[i / 2] == right[i / 2]);
        } else {
            assert(i == 2 * at);
        }
    }
    assert((2 * at) / 2 == at && (2 * at) % 2 == 0);
    assert((2 * at + 1) / 2 == at && (2 * at + 1) % 2 == 1);
    half
}

/// Names made of identifiers stand in the order of the identifiers.
proof fn names_rise(left: LocalNodeId, right: LocalNodeId)
    requires
        precedes(name_of(left), name_of(right)),
    ensures
        bytes_precede(left@, right@),
{
    left.length();
    right.length();
    bytes_precede_total(left@, right@);
    if left@ == right@ {
        precedes_irreflexive(name_of(left));
    } else if bytes_precede(right@, left@) {
        let half = halves_rise(right@, left@);
        let a = name_of(right);
        let b = name_of(left);
        digits_rise(half_byte(right@, half), half_byte(left@, half));
        assert(a[half + 2] == hex_of(right@)[half]);
        assert(b[half + 2] == hex_of(left@)[half]);
        assert forall|i: int| 0 <= i < half + 2 implies #[trigger] a[i] == b[i] by {
            if i >= 2 {
                assert(a[i] == hex_of(right@)[i - 2]);
                assert(b[i] == hex_of(left@)[i - 2]);
                assert(half_byte(right@, i - 2) == half_byte(left@, i - 2));
            }
        }
        precedes_at(a, b, half + 2);
        texts_are_asymmetric(a, b);
    }
}

/// The texts of source units stand in the order of the units.
proof fn units_rise(left: SourceUnitId, right: SourceUnitId)
    requires
        precedes(left.text(), right.text()),
    ensures
        bytes_precede(left@, right@),
{
    left.length();
    right.length();
    bytes_precede_total(left@, right@);
    if left@ == right@ {
        precedes_irreflexive(left.text());
    } else if bytes_precede(right@, left@) {
        let half = halves_rise(right@, left@);
        let at = place_of(half);
        let a = right.text();
        let b = left.text();
        digits_rise(half_byte(right@, half), half_byte(left@, half));
        assert(!hyphen_at(at) && half_at(at) == half);
        assert(a[at + 2] == encoded(right@)[at]);
        assert(b[at + 2] == encoded(left@)[at]);
        assert forall|i: int| 0 <= i < at + 2 implies #[trigger] a[i] == b[i] by {
            if i >= 2 {
                assert(a[i] == encoded(right@)[i - 2]);
                assert(b[i] == encoded(left@)[i - 2]);
                if !hyphen_at(i - 2) {
                    assert(0 <= half_at(i - 2) < half);
                    assert(half_byte(right@, half_at(i - 2)) == half_byte(left@, half_at(i - 2)));
                }
            }
        }
        precedes_at(a, b, at + 2);
        texts_are_asymmetric(a, b);
    }
}

// -- Values ------------------------------------------------------------------------

proof fn integer_stays(number: i64)
    ensures
        integer_text(shown(number as int)) == shown(number as int),
{
    shown_reads_back(number as int);
}

proof fn float_stays(bits: u64)
    requires
        finite(bits),
    ensures
        float_text(shown_double(bits)) == shown_double(bits),
{
    written_number_reads_back(bits);
}

proof fn hex_stays(bytes: Seq<u8>)
    ensures
        lowered(hex_of(bytes)) == hex_of(bytes),
        hex_bytes(hex_of(bytes)) == bytes,
        hex_pairs(hex_of(bytes)),
{
    let digits = hex_of(bytes);
    assert forall|i: int| 0 <= i < digits.len() implies #[trigger] digits[i] == hex_digit(
        half_byte(bytes, i),
    ) && 0 <= half_byte(bytes, i) < 16 by {}
    assert forall|i: int| 0 <= i < digits.len() implies hexadecimal(#[trigger] digits[i]) by {}
    assert(lowered(digits) =~= digits) by {
        assert forall|i: int| 0 <= i < digits.len() implies #[trigger] lowered(digits)[i]
            == digits[i] by {
            assert(digits[i] == hex_digit(half_byte(bytes, i)));
        }
    }
    assert(digits.len() / 2 == bytes.len());
    assert(hex_bytes(digits) =~= bytes) by {
        assert forall|i: int| 0 <= i < bytes.len() implies #[trigger] hex_bytes(digits)[i]
            == bytes[i] by {
            assert(digits[2 * i] == hex_digit(half_byte(bytes, 2 * i)));
            assert(digits[2 * i + 1] == hex_digit(half_byte(bytes, 2 * i + 1)));
            assert((2 * i) / 2 == i && (2 * i + 1) / 2 == i);
            assert(hex_value(digits[2 * i]) == bytes[i] as int / 16);
            assert(hex_value(digits[2 * i + 1]) == bytes[i] as int % 16);
        }
    }
}

/// A scalar that is written, read and normalized stays the scalar.
proof fn scalar_stays(scalar: ScalarModel, range: SourceRange)
    requires
        sound_scalar(scalar),
    ensures
        scalar_from(canonical_scalar(written_scalar(scalar)), range) == Ok::<
            _,
            ConversionErrorModel,
        >(scalar),
        !(written_scalar(scalar) is List),
{
    scalar_reads_back(scalar, range);
    match scalar {
        ScalarModel::Integer(number) => integer_stays(number),
        ScalarModel::Float(bits) => float_stays(bits),
        ScalarModel::Bytes(bytes) => hex_stays(bytes),
        _ => {},
    }
}

proof fn scalars_stay(read: Seq<Spanned<ValueModel>>, items: Seq<ScalarModel>, at: int)
    requires
        0 <= at <= items.len(),
        read.len() == items.len(),
        forall|i: int| 0 <= i < items.len() ==> sound_scalar(#[trigger] items[i]),
        forall|i: int|
            0 <= i < items.len() ==> (#[trigger] read[i]).value == canonical_scalar(
                written_scalar(items[i]),
            ),
    ensures
        scalars_from(read, at, items.take(at)) == Ok::<_, ConversionErrorModel>(items),
    decreases items.len() - at,
{
    if at < items.len() {
        scalar_stays(items[at], read[at].range);
        assert(items.take(at).push(items[at]) =~= items.take(at + 1));
        scalars_stay(read, items, at + 1);
    } else {
        assert(items.take(at) =~= items);
    }
}

/// A value that is written and read stays the value.
proof fn value_stays(read: Spanned<ValueModel>, value: PropertyModel)
    requires
        sound_value(value),
        same_value(read.value, written_value(value)),
    ensures
        property_from(read) == Ok::<_, ConversionErrorModel>(value),
{
    match value {
        PropertyModel::Scalar(scalar) => {
            scalar_stays(scalar, read.range);
            assert(!(canonical_scalar(written_scalar(scalar)) is List));
        },
        PropertyModel::List(items) => {
            let wrote = written_value(value)->List_0;
            let found = read.value->List_0;
            assert forall|i: int| 0 <= i < items.len() implies (#[trigger] found[i]).value
                == canonical_scalar(written_scalar(items[i])) by {
                assert(wrote[i].value == written_scalar(items[i]));
            }
            assert(items.take(0) =~= Seq::empty());
            scalars_stay(found, items, 0);
        },
    }
}

// -- Record bodies -----------------------------------------------------------------

proof fn label_items_stay(read: Seq<Spanned<ValueModel>>, extra: Seq<Seq<char>>, at: int)
    requires
        0 <= at <= extra.len(),
        read.len() == extra.len(),
        forall|i: int|
            0 <= i < extra.len() ==> (#[trigger] read[i]).value == ValueModel::String(extra[i]),
    ensures
        label_items(read, at, extra.take(at)) == Ok::<_, ConversionErrorModel>(extra),
    decreases extra.len() - at,
{
    if at < extra.len() {
        assert(read[at].value == ValueModel::String(extra[at]));
        assert(extra.take(at).push(extra[at]) =~= extra.take(at + 1));
        label_items_stay(read, extra, at + 1);
    } else {
        assert(extra.take(at) =~= extra);
    }
}

/// Whether a property states the identifier.
spec fn states_id() -> spec_fn(WrittenProperty) -> bool {
    |property: WrittenProperty| property.key.value == "id"@
}

/// Whether a property states labels.
spec fn states_labels() -> spec_fn(WrittenProperty) -> bool {
    |property: WrittenProperty| property.key.value == "labels"@
}

/// Whether a property is an ordinary one.
spec fn is_ordinary() -> spec_fn(WrittenProperty) -> bool {
    |property: WrittenProperty| property.key.value != "id"@ && property.key.value != "labels"@
}

/// What the first properties of a record carry.
spec fn carried(
    wrote: Seq<WrittenProperty>,
    at: int,
    id: Seq<char>,
    extra: Seq<Seq<char>>,
    properties: Seq<(Seq<char>, PropertyModel)>,
) -> Parts {
    Parts {
        id: if picked(wrote.take(at), states_id()).len() > 0 {
            Some(id)
        } else {
            None
        },
        extra: if picked(wrote.take(at), states_labels()).len() > 0 {
            extra
        } else {
            Seq::empty()
        },
        properties: properties.take(picked(wrote.take(at), is_ordinary()).len() as int),
    }
}

/// Whether texts stand in order.
spec fn texts_in_order(texts: Seq<Seq<char>>) -> bool {
    forall|i: int, j: int|
        0 <= i < j < texts.len() ==> !precedes(#[trigger] texts[j], #[trigger] texts[i])
}

/// Labels that are in order are written as they stand.
proof fn labels_are_shown_so(written: WrittenProperty, extra: Seq<Seq<char>>)
    requires
        texts_in_order(extra),
        labels_property(extra) == seq![written],
    ensures
        shown_value(written) == written.value.value,
{
    assert(labels_property(extra)[0] == written);
    assert(extra.len() > 0) by {
        assert(labels_property(extra).len() == 1);
    }
    let items = written.value.value->List_0;
    let strings = strings_of(items);
    assert forall|i: int| 0 <= i < items.len() implies (#[trigger] items[i]).value
        == ValueModel::String(extra[i]) by {}
    assert forall|i: int, j: int| 0 <= i < j < strings.len() implies !Spanned::<String>::before(
        #[trigger] strings[j],
        #[trigger] strings[i],
    ) by {
        assert(strings[i].value == extra[i] && strings[j].value == extra[j]);
    }
    sorted_is_stable::<Spanned<String>>(strings);
    assert(string_items(strings) =~= items);
}

/// What is chosen of labels that are in order is in order.
proof fn chosen_stay_in_order(labels: Seq<Seq<char>>, count: int, among: Seq<Seq<char>>, wanted: bool)
    requires
        0 <= count <= labels.len(),
        texts_in_order(labels),
    ensures
        texts_in_order(chosen(labels, count, among, wanted)),
        forall|i: int|
            0 <= i < chosen(labels, count, among, wanted).len() ==> labels.take(count).contains(
                #[trigger] chosen(labels, count, among, wanted)[i],
            ),
    decreases count,
{
    if count > 0 {
        chosen_stay_in_order(labels, count - 1, among, wanted);
        let before = chosen(labels, count - 1, among, wanted);
        let all = chosen(labels, count, among, wanted);
        let last = labels[count - 1];
        assert forall|i: int| 0 <= i < before.len() implies labels.take(count).contains(
            #[trigger] before[i],
        ) && !precedes(last, before[i]) by {
            let front = labels.take(count - 1);
            assert(front.contains(before[i]));
            let k = choose|k: int| 0 <= k < front.len() && front[k] == before[i];
            assert(labels.take(count)[k] == before[i]);
            assert(labels[k] == before[i]);
        }
        assert(labels.take(count)[count - 1] == last);
        assert forall|i: int| 0 <= i < all.len() implies labels.take(count).contains(
            #[trigger] all[i],
        ) by {
            if i < before.len() {
                assert(all[i] == before[i]);
            }
        }
        assert forall|i: int, j: int| 0 <= i < j < all.len() implies !precedes(
            #[trigger] all[j],
            #[trigger] all[i],
        ) by {
            assert(all[i] == before[i]);
            if j < before.len() {
                assert(all[j] == before[j]);
            }
        }
    }
}

proof fn carried_on(
    read: Seq<WrittenProperty>,
    wrote: Seq<WrittenProperty>,
    at: int,
    id: Seq<char>,
    extra: Seq<Seq<char>>,
    properties: Seq<(Seq<char>, PropertyModel)>,
)
    requires
        0 <= at <= wrote.len(),
        read.len() == wrote.len(),
        forall|i: int| 0 <= i < wrote.len() ==> same_property(#[trigger] read[i], wrote[i]),
        picked(wrote, states_id()) == seq![written_property("id"@, ValueModel::String(id))],
        picked(wrote, states_labels()) == labels_property(extra),
        texts_in_order(extra),
        picked(wrote, is_ordinary()) == ordinary_properties(properties),
        forall|i: int| 0 <= i < properties.len() ==> sound_property(#[trigger] properties[i]),
    ensures
        parts_from(read, at, carried(wrote, at, id, extra, properties)) == Ok::<
            _,
            ConversionErrorModel,
        >(Parts { id: Some(id), extra, properties }),
    decreases wrote.len() - at,
{
    if at < wrote.len() {
        picked_one_more(wrote, states_id(), at);
        picked_one_more(wrote, states_labels(), at);
        picked_one_more(wrote, is_ordinary(), at);
        let before = carried(wrote, at, id, extra, properties);
        let after = carried(wrote, at + 1, id, extra, properties);
        let written = wrote[at];
        let found = read[at];
        assert(same_property(found, written));
        reveal_strlit("id");
        reveal_strlit("labels");
        assert("id"@.len() == 2 && "labels"@.len() == 6);
        if states_id()(written) {
            let k = picked(wrote.take(at), states_id()).len() as int;
            assert(picked(wrote.take(at + 1), states_id()).len() == k + 1);
            assert(picked(wrote, states_id()).len() == k + 1 + picked(
                wrote.skip(at + 1),
                states_id(),
            ).len());
            assert(picked(wrote, states_id())[k] == written);
            assert(k == 0);
            assert(!states_labels()(written) && !is_ordinary()(written));
            assert(found.value.value == ValueModel::String(id));
            assert(part_added(before, found) == Ok::<_, ConversionErrorModel>(after));
        } else if states_labels()(written) {
            let k = picked(wrote.take(at), states_labels()).len() as int;
            assert(picked(wrote.take(at + 1), states_labels()).len() == k + 1);
            assert(picked(wrote, states_labels()).len() == k + 1 + picked(
                wrote.skip(at + 1),
                states_labels(),
            ).len());
            assert(labels_property(extra).len() <= 1);
            assert(picked(wrote, states_labels())[k] == written);
            assert(k == 0);
            assert(!is_ordinary()(written));
            let list = written.value.value->List_0;
            let items = found.value.value->List_0;
            assert(labels_property(extra) =~= seq![written]);
            labels_are_shown_so(written, extra);
            assert forall|i: int| 0 <= i < extra.len() implies (#[trigger] items[i]).value
                == ValueModel::String(extra[i]) by {
                assert(list[i].value == ValueModel::String(extra[i]));
            }
            assert(extra.take(0) =~= Seq::empty());
            label_items_stay(items, extra, 0);
            assert(part_added(before, found) == Ok::<_, ConversionErrorModel>(after));
        } else {
            let k = picked(wrote.take(at), is_ordinary()).len() as int;
            assert(is_ordinary()(written));
            assert(picked(wrote.take(at + 1), is_ordinary()).len() == k + 1);
            assert(picked(wrote, is_ordinary()).len() == k + 1 + picked(
                wrote.skip(at + 1),
                is_ordinary(),
            ).len());
            assert(picked(wrote, is_ordinary())[k] == written);
            assert(written == ordinary_properties(properties)[k]);
            assert(sound_property(properties[k]));
            value_stays(found.value, properties[k].1);
            assert(properties.take(k).push(properties[k]) =~= properties.take(k + 1));
            assert(part_added(before, found) == Ok::<_, ConversionErrorModel>(after));
        }
        carried_on(read, wrote, at + 1, id, extra, properties);
    } else {
        assert(wrote.take(at) =~= wrote);
        assert(properties.take(properties.len() as int) =~= properties);
        assert(extra.len() == 0 ==> extra =~= Seq::empty());
        assert(at >= read.len());
    }
}

/// The parts of a record that is written, sorted and read stay what they were.
proof fn parts_stay(
    read: RecordBodyModel,
    id: Seq<char>,
    properties: Seq<(Seq<char>, PropertyModel)>,
    extra: Seq<Seq<char>>,
    contributions: Seq<ContributionModel>,
)
    requires
        sound_properties(properties),
        texts_in_order(extra),
        same_record(read, written_record(id, properties, extra, contributions)),
    ensures
        parts_of(read) == Ok::<_, ConversionErrorModel>(Parts { id: Some(id), extra, properties }),
{
    reveal_strlit("id");
    reveal_strlit("labels");
    assert("id"@.len() == 2 && "labels"@.len() == 6);
    let first = seq![written_property("id"@, ValueModel::String(id))];
    let second = labels_property(extra);
    let third = ordinary_properties(properties);
    let all = first + second + third;
    let wrote = sorted::<Property>(all);
    assert forall|i: int| 0 <= i < third.len() implies is_ordinary()(#[trigger] third[i]) by {
        assert(sound_property(properties[i]));
    }
    picked_of_both(first + second, third, states_id());
    picked_of_both(first, second, states_id());
    picked_of_both(first + second, third, states_labels());
    picked_of_both(first, second, states_labels());
    picked_of_both(first + second, third, is_ordinary());
    picked_of_both(first, second, is_ordinary());
    picked_all(first, states_id());
    picked_none(second, states_id());
    assert forall|i: int| 0 <= i < third.len() implies !states_id()(#[trigger] third[i]) by {
        assert(is_ordinary()(third[i]));
    }
    picked_none(third, states_id());
    picked_none(first, states_labels());
    picked_all(second, states_labels());
    assert forall|i: int| 0 <= i < third.len() implies !states_labels()(#[trigger] third[i]) by {
        assert(is_ordinary()(third[i]));
    }
    picked_none(third, states_labels());
    picked_none(first, is_ordinary());
    picked_none(second, is_ordinary());
    picked_all(third, is_ordinary());
    let none = Seq::<WrittenProperty>::empty();
    assert(first + none + none =~= first);
    assert(none + second + none =~= second);
    assert(none + none + third =~= third);
    sorting_keeps_picks::<Property>(all, states_id());
    sorting_keeps_picks::<Property>(all, states_labels());
    sorting_keeps_picks::<Property>(all, is_ordinary());
    sorted_is_stable::<Property>(first);
    sorted_is_stable::<Property>(second);
    assert(in_order::<Property>(third)) by {
        assert forall|i: int, j: int| 0 <= i < j < third.len() implies !Property::before(
            #[trigger] third[j],
            #[trigger] third[i],
        ) by {
            order_holds::<(PropertyKey, PropertyValue)>(properties, i, j);
        }
    }
    sorted_is_stable::<Property>(third);
    assert(wrote.take(0) =~= none);
    assert(properties.take(0) =~= Seq::empty());
    assert(carried(wrote, 0, id, extra, properties) == no_parts());
    carried_on(read.properties, wrote, 0, id, extra, properties);
}

// -- Evidence ----------------------------------------------------------------------

/// Whether a field has a key.
spec fn has_key(key: Seq<char>) -> spec_fn(EvidenceFieldModel) -> bool {
    |field: EvidenceFieldModel| field.key.value == key
}

proof fn found_is_first_picked(fields: Seq<EvidenceFieldModel>, key: Seq<char>, at: int)
    requires
        0 <= at <= fields.len(),
    ensures
        match find_field(fields, key, at) {
            None => picked(fields.skip(at), has_key(key)).len() == 0,
            Some(k) => at <= k < fields.len() && picked(fields.skip(at), has_key(key)).len() > 0
                && picked(fields.skip(at), has_key(key))[0] == fields[k],
        },
    decreases fields.len() - at,
{
    if at < fields.len() {
        found_is_first_picked(fields, key, at + 1);
        let one = seq![fields[at]];
        assert(fields.skip(at) =~= one + fields.skip(at + 1));
        picked_of_both(one, fields.skip(at + 1), has_key(key));
        if has_key(key)(fields[at]) {
            picked_all(one, has_key(key));
        } else {
            picked_none(one, has_key(key));
        }
    }
}

/// Sorting leaves what a key finds first where it is found first.
proof fn sorting_keeps_finds(fields: Seq<EvidenceFieldModel>, key: Seq<char>)
    ensures
        first_value(sorted::<EvidenceField>(fields), key) == first_value(fields, key),
{
    let ordered = sorted::<EvidenceField>(fields);
    sorting_keeps_picks::<EvidenceField>(fields, has_key(key));
    let some = picked(fields, has_key(key));
    picked_holds(fields, has_key(key), |field: EvidenceFieldModel| true);
    assert(in_order::<EvidenceField>(some)) by {
        assert forall|i: int, j: int| 0 <= i < j < some.len() implies !EvidenceField::before(
            #[trigger] some[j],
            #[trigger] some[i],
        ) by {
            assert(has_key(key)(some[i]) && has_key(key)(some[j]));
            precedes_irreflexive(key);
        }
    }
    sorted_is_stable::<EvidenceField>(some);
    found_is_first_picked(fields, key, 0);
    found_is_first_picked(ordered, key, 0);
    assert(fields.skip(0) =~= fields);
    assert(ordered.skip(0) =~= ordered);
}

proof fn finds_agree(
    read: Seq<EvidenceFieldModel>,
    wrote: Seq<EvidenceFieldModel>,
    key: Seq<char>,
    at: int,
)
    requires
        0 <= at <= wrote.len(),
        read.len() == wrote.len(),
        forall|i: int| 0 <= i < wrote.len() ==> same_evidence_field(#[trigger] read[i], wrote[i]),
    ensures
        find_field(read, key, at) == find_field(wrote, key, at),
        find_field(wrote, key, at) matches Some(k) ==> at <= k < wrote.len(),
    decreases wrote.len() - at,
{
    if at < wrote.len() {
        assert(same_evidence_field(read[at], wrote[at]));
        finds_agree(read, wrote, key, at + 1);
    }
}

/// Whether a key finds in the fields that were read what it finds in those written.
spec fn finds_same(
    read: Seq<EvidenceFieldModel>,
    entry: EvidenceModel,
    inherited: Option<(Seq<char>, Seq<char>)>,
    key: Seq<char>,
) -> bool {
    match kept_value(entry, inherited, key) {
        None => find_field(read, key, 0) is None,
        Some(value) => find_field(read, key, 0) matches Some(k) && same_evidence(
            read[k].value.value,
            value.value,
        ),
    }
}

proof fn key_finds_same(
    read: EvidenceBlockModel,
    entry: EvidenceModel,
    inherited: Option<(Seq<char>, Seq<char>)>,
    key: Seq<char>,
)
    requires
        same_evidence_block(read, written_evidence(entry, inherited)),
    ensures
        finds_same(read.fields, entry, inherited, key),
{
    let fields = written_fields(entry, inherited);
    let wrote = sorted::<EvidenceField>(fields);
    fields_keep_values(entry, inherited, key);
    sorting_keeps_finds(fields, key);
    finds_agree(read.fields, wrote, key, 0);
    if let Some(k) = find_field(wrote, key, 0) {
        assert(same_evidence_field(read.fields[k], wrote[k]));
    }
}

/// The score of a sound confidence stays as it is written.
proof fn score_stays(score: Score)
    requires
        valid_score(score@),
    ensures
        float_text(shown_double(widened_score(score@))) == shown_double(widened_score(score@)),
        numeral(TokenKind::FloatLiteral, shown_double(widened_score(score@))),
{
    if score@ == 0x8000_0000 {
        widened_is_finite(0);
        zero_widens();
    } else {
        widened_is_finite(score@ as u64);
    }
    assert(finite(widened_score(score@)));
    float_stays(widened_score(score@));
    shown_double_is_numeral(widened_score(score@));
}

/// A piece of evidence that is written, sorted and read stays what it was.
#[verifier::spinoff_prover]
#[verifier::rlimit(30)]
proof fn evidence_stays(
    read: EvidenceBlockModel,
    entry: EvidenceModel,
    inherited: Option<(Seq<char>, Seq<char>)>,
)
    requires
        sound_evidence(entry),
        same_evidence_block(read, written_evidence(entry, inherited)),
    ensures
        evidence_from(read, inherited) == Ok::<_, ConversionErrorModel>(entry),
{
    let keys = seq![
        "source"@,
        "revision"@,
        "path"@,
        "digest"@,
        "range"@,
        "producer"@,
        "producer_version"@,
        "method"@,
        "confidence"@,
    ];
    keys_differ();
    assert forall|i: int, j: int| 0 <= i < 9 && 0 <= j < 9 && i != j implies #[trigger] keys[i]
        != #[trigger] keys[j] by {}
    key_finds_same(read, entry, inherited, keys[0]);
    key_finds_same(read, entry, inherited, keys[1]);
    key_finds_same(read, entry, inherited, keys[2]);
    key_finds_same(read, entry, inherited, keys[3]);
    key_finds_same(read, entry, inherited, keys[4]);
    key_finds_same(read, entry, inherited, keys[5]);
    key_finds_same(read, entry, inherited, keys[6]);
    key_finds_same(read, entry, inherited, keys[7]);
    key_finds_same(read, entry, inherited, keys[8]);
    assert(source_of(read) == Ok::<_, ConversionErrorModel>(entry.source));
    assert(digest_of(read) == Ok::<_, ConversionErrorModel>(entry.content_digest));
    assert(optional_of(read, "revision"@) == Ok::<_, ConversionErrorModel>(
        entry.resolved_revision,
    ));
    assert(optional_of(read, "path"@) == Ok::<_, ConversionErrorModel>(entry.path));
    assert(optional_range(read) == Ok::<_, ConversionErrorModel>(entry.range)) by {
        if let Some(range) = entry.range {
            let k = find_field(read.fields, "range"@, 0)->0;
            range_reads_back(range, read.fields[k].value.range);
        }
    }
    assert(producer_of(read, inherited) == Ok::<_, ConversionErrorModel>(
        (entry.producer, entry.producer_version),
    ));
    words_differ();
    assert(method_of(read) == Ok::<_, ConversionErrorModel>(entry.method));
    assert(confidence_of(read) == Ok::<_, ConversionErrorModel>(entry.confidence)) by {
        let k = find_field(read.fields, "confidence"@, 0)->0;
        let range = read.fields[k].value.range;
        match entry.confidence {
            Confidence::Extracted => {},
            Confidence::Inferred { score } => {
                score_stays(score);
                score_reads_back(score, "inferred"@, range);
            },
            Confidence::Ambiguous { score } => {
                score_stays(score);
                score_reads_back(score, "ambiguous"@, range);
            },
        }
    }
}

// -- Contributions -----------------------------------------------------------------

proof fn evidence_list_stays(
    read: Seq<EvidenceBlockModel>,
    entries: Seq<EvidenceModel>,
    inherited: Option<(Seq<char>, Seq<char>)>,
    at: int,
)
    requires
        0 <= at <= entries.len(),
        read.len() == entries.len(),
        forall|i: int| 0 <= i < entries.len() ==> sound_evidence(#[trigger] entries[i]),
        forall|i: int|
            0 <= i < entries.len() ==> same_evidence_block(
                #[trigger] read[i],
                written_evidence(entries[i], inherited),
            ),
    ensures
        evidence_list(read, inherited, at, entries.take(at)) == Ok::<_, ConversionErrorModel>(
            entries,
        ),
    decreases entries.len() - at,
{
    if at < entries.len() {
        assert(same_evidence_block(read[at], written_evidence(entries[at], inherited)));
        evidence_stays(read[at], entries[at], inherited);
        assert(entries.take(at).push(entries[at]) =~= entries.take(at + 1));
        evidence_list_stays(read, entries, inherited, at + 1);
    } else {
        assert(entries.take(at) =~= entries);
    }
}

/// A contribution that is written and read stays what it was.
proof fn contribution_stays(read: ContributionBlockModel, entry: ContributionModel)
    requires
        sound_contribution(entry),
        same_contribution(read, written_contribution(entry)),
    ensures
        contribution_from(read) == Ok::<_, ConversionErrorModel>(entry),
{
    let given = owner_supplies(entry.owner);
    let wrote = written_contribution(entry);
    unit_reads_back(entry.source_unit);
    assert(entry.evidence.take(0) =~= Seq::empty());
    assert forall|i: int| 0 <= i < entry.evidence.len() implies same_evidence_block(
        #[trigger] read.evidence[i],
        written_evidence(entry.evidence[i], given),
    ) by {
        assert(wrote.evidence[i] == written_evidence(entry.evidence[i], given));
    }
    evidence_list_stays(read.evidence, entry.evidence, given, 0);
    assert(supplied(read.owner) == given);
    assert(owner_from(read.owner) == Ok::<_, ConversionErrorModel>(entry.owner));
    assert(unit_from(read.unit) == Ok::<_, ConversionErrorModel>(entry.source_unit));
}

/// The query unit comes before every other unit.
proof fn query_is_first(query: SourceUnitId, other: SourceUnitId)
    requires
        query.is_query(),
        !other.is_query(),
    ensures
        bytes_precede(query@, other@),
{
    query.length();
    other.length();
    bytes_precede_total(query@, other@);
}

/// The two orders of contributions, written and converted, agree.
proof fn contributions_rise(left: ContributionModel, right: ContributionModel)
    requires
        ContributionBlock::before(written_contribution(left), written_contribution(right)),
    ensures
        Contribution::before(left, right),
{
    let a = contribution_key(written_contribution(left));
    let b = contribution_key(written_contribution(right));
    let c = owner_key(left.owner);
    let d = owner_key(right.owner);
    assert(a.len() == 4 && b.len() == 4 && c.len() == 3 && d.len() == 3);
    assert(a[0] == c[0] && a[1] == c[1] && a[2] == c[2]);
    assert(b[0] == d[0] && b[1] == d[1] && b[2] == d[2]);
    reveal_with_fuel(keys_before, 5);
    if !keys_before(c, d, 0) {
        precedes_irreflexive(c[0]);
        precedes_irreflexive(c[1]);
        precedes_irreflexive(c[2]);
        assert(c =~= d);
        assert(precedes(a[3], b[3]));
        if left.source_unit.is_query() {
            if right.source_unit.is_query() {
                precedes_irreflexive(a[3]);
            } else {
                query_is_first(left.source_unit, right.source_unit);
            }
        } else if !right.source_unit.is_query() {
            units_rise(left.source_unit, right.source_unit);
        }
    }
}

proof fn contributions_stay(read: Seq<ContributionBlockModel>, entries: Seq<ContributionModel>, at: int)
    requires
        0 <= at <= entries.len(),
        sound_contributions(entries),
        read.len() == entries.len(),
        forall|i: int|
            0 <= i < entries.len() ==> same_contribution(
                #[trigger] read[i],
                sorted::<ContributionBlock>(written_contributions(entries))[i],
            ),
    ensures
        contributions_from(read, at, entries.take(at)) == Ok::<_, ConversionErrorModel>(entries),
        sorted::<ContributionBlock>(written_contributions(entries)) == written_contributions(
            entries,
        ),
    decreases entries.len() - at,
{
    let wrote = written_contributions(entries);
    assert(in_order::<ContributionBlock>(wrote)) by {
        assert forall|i: int, j: int| 0 <= i < j < wrote.len() implies !ContributionBlock::before(
            #[trigger] wrote[j],
            #[trigger] wrote[i],
        ) by {
            assert(!Contribution::before(entries[j], entries[i]));
            if ContributionBlock::before(wrote[j], wrote[i]) {
                contributions_rise(entries[j], entries[i]);
            }
        }
    }
    sorted_is_stable::<ContributionBlock>(wrote);
    if at < entries.len() {
        assert(same_contribution(read[at], wrote[at]));
        contribution_stays(read[at], entries[at]);
        assert(entries.take(at).push(entries[at]) =~= entries.take(at + 1));
        contributions_stay(read, entries, at + 1);
    } else {
        assert(entries.take(at) =~= entries);
    }
}

// -- Labels ------------------------------------------------------------------------

proof fn chosen_in_order(labels: Seq<Seq<char>>, count: int, among: Seq<Seq<char>>, wanted: bool)
    requires
        0 <= count <= labels.len(),
        in_order::<Label>(labels),
    ensures
        in_order::<Label>(chosen(labels, count, among, wanted)),
        forall|i: int|
            0 <= i < chosen(labels, count, among, wanted).len() ==> exists|k: int|
                0 <= k < count && labels[k] == #[trigger] chosen(labels, count, among, wanted)[i],
    decreases count,
{
    if count > 0 {
        chosen_in_order(labels, count - 1, among, wanted);
        let less = chosen(labels, count - 1, among, wanted);
        let all = chosen(labels, count, among, wanted);
        assert forall|i: int| 0 <= i < all.len() implies exists|k: int|
            0 <= k < count && labels[k] == #[trigger] all[i] by {
            if i < less.len() {
                assert(all[i] == less[i]);
                let k = choose|k: int| 0 <= k < count - 1 && labels[k] == less[i];
                assert(0 <= k < count && labels[k] == all[i]);
            } else {
                assert(labels[count - 1] == all[i]);
            }
        }
        assert forall|i: int, j: int| 0 <= i < j < all.len() implies !Label::before(
            #[trigger] all[j],
            #[trigger] all[i],
        ) by {
            assert(all[i] == less[i]);
            if j < less.len() {
                assert(all[j] == less[j]);
            } else {
                let k = choose|k: int| 0 <= k < count - 1 && labels[k] == less[i];
                assert(!Label::before(labels[count - 1], labels[k]));
            }
        }
    }
}

proof fn named_stay(
    read: Seq<Spanned<Seq<char>>>,
    wrote: Seq<Spanned<Seq<char>>>,
    at: int,
    before: Seq<Seq<char>>,
)
    requires
        0 <= at <= wrote.len(),
        read.len() == wrote.len(),
        forall|i: int| 0 <= i < wrote.len() ==> (#[trigger] read[i]).value == wrote[i].value,
    ensures
        named_labels(wrote, at, before) matches Ok(found) ==> named_labels(read, at, before)
            == Ok::<_, ConversionErrorModel>(found),
    decreases wrote.len() - at,
{
    if at < wrote.len() {
        assert(read[at].value == wrote[at].value);
        named_stay(read, wrote, at + 1, with_new(before, wrote[at].value));
    }
}

proof fn extra_stay(
    extra: Seq<Seq<char>>,
    at: int,
    range: SourceRange,
    other: SourceRange,
    before: Seq<Seq<char>>,
)
    requires
        0 <= at <= extra.len(),
    ensures
        extra_labels(extra, at, range, before) matches Ok(found) ==> extra_labels(
            extra,
            at,
            other,
            before,
        ) == Ok::<_, ConversionErrorModel>(found),
    decreases extra.len() - at,
{
    if at < extra.len() {
        extra_stay(extra, at + 1, range, other, with_new(before, extra[at]));
    }
}

/// The labels of a node that is written, sorted and read stay what they were.
proof fn labels_stay(
    read: Seq<Spanned<Seq<char>>>,
    labels: Seq<Seq<char>>,
    declared: Seq<Seq<char>>,
    range: SourceRange,
)
    requires
        sound_labels(labels),
        read.len() == named_part(labels, declared).len(),
        forall|i: int|
            0 <= i < read.len() ==> (#[trigger] read[i]).value == sorted::<Spanned<String>>(
                unplaced_all(named_part(labels, declared)),
            )[i].value,
    ensures
        labels_from(read, extra_part(labels, declared), range) matches Ok(found) && sorted::<Label>(
            found,
        ) == labels,
{
    let named = named_part(labels, declared);
    let wrote = unplaced_all(named);
    chosen_in_order(labels, labels.len() as int, declared, true);
    assert(in_order::<Label>(named));
    assert(in_order::<Spanned<String>>(wrote)) by {
        assert forall|i: int, j: int| 0 <= i < j < wrote.len() implies !Spanned::<String>::before(
            #[trigger] wrote[j],
            #[trigger] wrote[i],
        ) by {
            assert(!Label::before(named[j], named[i]));
        }
    }
    sorted_is_stable::<Spanned<String>>(wrote);
    let origin = SourceRange::at_origin();
    labels_read_back(labels, declared, origin);
    named_stay(read, wrote, 0, Seq::empty());
    let found = named_labels(wrote, 0, Seq::empty())->Ok_0;
    extra_stay(extra_part(labels, declared), 0, origin, range, found);
}

// -- Nodes -------------------------------------------------------------------------

/// The nodes a graph writes.
spec fn nodes_written(nodes: Seq<NodeModel>, declared: Seq<Seq<char>>) -> Seq<NodeDeclarationModel> {
    Seq::new(nodes.len(), |i: int| written_node(nodes[i], declared))
}

proof fn nodes_stand(nodes: Seq<NodeModel>, declared: Seq<Seq<char>>)
    requires
        in_order::<Node>(nodes),
    ensures
        sorted::<NodeDeclaration>(nodes_written(nodes, declared)) == nodes_written(nodes, declared),
{
    let wrote = nodes_written(nodes, declared);
    assert forall|i: int, j: int| 0 <= i < j < wrote.len() implies !NodeDeclaration::before(
        #[trigger] wrote[j],
        #[trigger] wrote[i],
    ) by {
        assert(!Node::before(nodes[j], nodes[i]));
        if NodeDeclaration::before(wrote[j], wrote[i]) {
            names_rise(nodes[j].id, nodes[i].id);
        }
    }
    sorted_is_stable::<NodeDeclaration>(wrote);
}

proof fn node_stays(
    build: Build,
    read: NodeDeclarationModel,
    node: NodeModel,
    declared: Seq<Seq<char>>,
    minted: Seq<Seq<u8>>,
)
    requires
        sound_node(node),
        same_node(read, written_node(node, declared)),
    ensures
        node_added(build, read, minted) == Ok::<_, ConversionErrorModel>(
            Build {
                nodes: build.nodes.push(node),
                names: build.names.push((name_of(node.id), node.id)),
                ..build
            },
        ),
{
    let extra = extra_part(node.labels, declared);
    assert forall|i: int, j: int| 0 <= i < j < node.labels.len() implies !precedes(
        #[trigger] node.labels[j],
        #[trigger] node.labels[i],
    ) by {
        assert(!Label::before(node.labels[j], node.labels[i]));
    }
    chosen_stay_in_order(
        node.labels,
        node.labels.len() as int,
        named_part(node.labels, declared),
        false,
    );
    parts_stay(read.record, node.id.text(), node.properties, extra, node.contributions);
    node.id.is_found();
    node.id.text_reads_back(node.id);
    sorted_length::<Spanned<String>>(unplaced_all(named_part(node.labels, declared)));
    labels_stay(read.schemas, node.labels, declared, read.name.range);
    assert(node.contributions.take(0) =~= Seq::empty());
    sorted_length::<ContributionBlock>(written_contributions(node.contributions));
    contributions_stay(read.record.contributions, node.contributions, 0);
    sorted_is_stable::<(PropertyKey, PropertyValue)>(node.properties);
    sorted_is_stable::<Contribution>(node.contributions);
}

proof fn nodes_stay(
    read: Seq<NodeDeclarationModel>,
    nodes: Seq<NodeModel>,
    declared: Seq<Seq<char>>,
    count: int,
    minted: Seq<Seq<u8>>,
)
    requires
        0 <= count <= nodes.len(),
        read.len() == nodes.len(),
        forall|i: int| 0 <= i < nodes.len() ==> sound_node(#[trigger] nodes[i]),
        forall|i: int|
            0 <= i < nodes.len() ==> same_node(#[trigger] read[i], written_node(nodes[i], declared)),
    ensures
        nodes_built(read, count, minted) == Ok::<_, ConversionErrorModel>(
            Build {
                nodes: nodes.take(count),
                names: names_of(nodes).take(count),
                edges: Seq::empty(),
                used: 0,
            },
        ),
    decreases count,
{
    if count == 0 {
        assert(nodes.take(0) =~= Seq::empty());
        assert(names_of(nodes).take(0) =~= Seq::empty());
    } else {
        nodes_stay(read, nodes, declared, count - 1, minted);
        let node = nodes[count - 1];
        let build = nodes_built(read, count - 1, minted)->Ok_0;
        assert(same_node(read[count - 1], written_node(node, declared)));
        node_stays(build, read[count - 1], node, declared, minted);
        assert(nodes.take(count - 1).push(node) =~= nodes.take(count));
        assert(names_of(nodes).take(count - 1).push((name_of(node.id), node.id)) =~= names_of(
            nodes,
        ).take(count));
    }
}

// -- Edges -------------------------------------------------------------------------

/// The edges a graph writes.
spec fn edges_written(edges: Seq<EdgeModel>, links: Seq<LinkModel>) -> Seq<EdgeDeclarationModel> {
    Seq::new(edges.len(), |i: int| written_edge(edges[i], links))
}

/// The edge that a declaration was written for.
spec fn edge_of(
    declaration: EdgeDeclarationModel,
    edges: Seq<EdgeModel>,
    links: Seq<LinkModel>,
) -> EdgeModel {
    choose|edge: EdgeModel| edges.contains(edge) && written_edge(edge, links) == declaration
}

/// The edges in the order in which they are written.
spec fn edges_moved(edges: Seq<EdgeModel>, links: Seq<LinkModel>) -> Seq<EdgeModel> {
    let wrote = sorted::<EdgeDeclaration>(edges_written(edges, links));
    Seq::new(wrote.len(), |i: int| edge_of(wrote[i], edges, links))
}

proof fn edge_is_found(edges: Seq<EdgeModel>, links: Seq<LinkModel>, at: int)
    requires
        0 <= at < edges.len(),
    ensures
        edges_moved(edges, links).len() == edges.len(),
        edges.contains(edges_moved(edges, links)[at]),
        written_edge(edges_moved(edges, links)[at], links) == sorted::<EdgeDeclaration>(
            edges_written(edges, links),
        )[at],
{
    let all = edges_written(edges, links);
    let wrote = sorted::<EdgeDeclaration>(all);
    sorted_length::<EdgeDeclaration>(all);
    sorted_contains::<EdgeDeclaration>(all, wrote[at]);
    assert(wrote.contains(wrote[at]));
    let k = choose|k: int| 0 <= k < all.len() && all[k] == wrote[at];
    assert(edges.contains(edges[k]) && written_edge(edges[k], links) == wrote[at]);
}

proof fn written_edges_differ(left: EdgeModel, right: EdgeModel, links: Seq<LinkModel>)
    requires
        written_edge(left, links) == written_edge(right, links),
    ensures
        left.id == right.id,
{
    let a = written_edge(left, links).record.properties;
    let b = written_edge(right, links).record.properties;
    assert(a[0] == written_property("id"@, ValueModel::String(left.id.text())));
    assert(b[0] == written_property("id"@, ValueModel::String(right.id.text())));
    left.id.text_reads_back(right.id);
}

/// Edges that differ and stand in order are determined by which they are.
proof fn edges_in_order_are_one(left: Seq<EdgeModel>, right: Seq<EdgeModel>)
    requires
        in_order::<Edge>(left),
        in_order::<Edge>(right),
        edges_differ(left),
        edges_differ(right),
        left.len() == right.len(),
        forall|i: int| 0 <= i < left.len() ==> right.contains(#[trigger] left[i]),
        forall|i: int| 0 <= i < right.len() ==> left.contains(#[trigger] right[i]),
    ensures
        left == right,
    decreases left.len(),
{
    if left.len() > 0 {
        let n = left.len() as int;
        let a = left[n - 1];
        let b = right[n - 1];
        let i = choose|i: int| 0 <= i < right.len() && right[i] == a;
        let j = choose|j: int| 0 <= j < left.len() && left[j] == b;
        assert(right.contains(left[n - 1]) && left.contains(right[n - 1]));
        if i < n - 1 && j < n - 1 {
            assert(!Edge::before(right[n - 1], right[i]));
            assert(!Edge::before(left[n - 1], left[j]));
            assert(right[i].id != right[n - 1].id);
            a.id.length();
            b.id.length();
            bytes_precede_total(a.id@, b.id@);
            if a.id@ == b.id@ {
                LocalEdgeId::same_bytes(a.id, b.id);
            }
            assert(false);
        }
        assert(a == b) by {
            if i == n - 1 {
            } else {
                assert(j == n - 1);
            }
        }
        let l = left.drop_last();
        let r = right.drop_last();
        assert forall|k: int| 0 <= k < l.len() implies r.contains(#[trigger] l[k]) by {
            assert(l[k] == left[k] && right.contains(left[k]));
            let m = choose|m: int| 0 <= m < right.len() && right[m] == left[k];
            if m == n - 1 {
                assert(left[k].id != left[n - 1].id);
            }
            assert(r[m] == l[k]);
        }
        assert forall|k: int| 0 <= k < r.len() implies l.contains(#[trigger] r[k]) by {
            assert(r[k] == right[k] && left.contains(right[k]));
            let m = choose|m: int| 0 <= m < left.len() && left[m] == right[k];
            if m == n - 1 {
                assert(right[k].id != right[n - 1].id);
            }
            assert(l[m] == r[k]);
        }
        assert forall|x: int, y: int| 0 <= x < y < l.len() implies !Edge::before(
            #[trigger] l[y],
            #[trigger] l[x],
        ) && l[x].id != l[y].id by {
            assert(l[x] == left[x] && l[y] == left[y]);
        }
        assert forall|x: int, y: int| 0 <= x < y < r.len() implies !Edge::before(
            #[trigger] r[y],
            #[trigger] r[x],
        ) && r[x].id != r[y].id by {
            assert(r[x] == right[x] && r[y] == right[y]);
        }
        edges_in_order_are_one(l, r);
        assert(left =~= l.push(a));
        assert(right =~= r.push(b));
    } else {
        assert(left =~= right);
    }
}

/// Edges that are written in another order are sorted into the order they had.
proof fn edges_move_back(edges: Seq<EdgeModel>, links: Seq<LinkModel>)
    requires
        in_order::<Edge>(edges),
        edges_differ(edges),
    ensures
        sorted::<Edge>(edges_moved(edges, links)) == edges,
{
    broadcast use group_to_multiset_ensures;

    let all = edges_written(edges, links);
    let wrote = sorted::<EdgeDeclaration>(all);
    let moved = edges_moved(edges, links);
    sorted_length::<EdgeDeclaration>(all);
    sorted_keeps_items::<EdgeDeclaration>(all);
    assert(all.no_duplicates()) by {
        assert forall|i: int, j: int| 0 <= i < all.len() && 0 <= j < all.len() && i != j implies all[i]
            != all[j] by {
            if all[i] == all[j] {
                written_edges_differ(edges[i], edges[j], links);
                if i < j {
                    assert(edges[i].id != edges[j].id);
                } else {
                    assert(edges[j].id != edges[i].id);
                }
            }
        }
    }
    all.lemma_multiset_has_no_duplicates();
    wrote.lemma_multiset_has_no_duplicates_conv();
    assert forall|i: int, j: int| 0 <= i < j < moved.len() implies (#[trigger] moved[i]).id != (
    #[trigger] moved[j]).id by {
        edge_is_found(edges, links, i);
        edge_is_found(edges, links, j);
        if moved[i].id == moved[j].id {
            let k = choose|k: int| 0 <= k < edges.len() && edges[k] == moved[i];
            let m = choose|m: int| 0 <= m < edges.len() && edges[m] == moved[j];
            assert(k == m) by {
                if k < m {
                    assert(edges[k].id != edges[m].id);
                } else if m < k {
                    assert(edges[m].id != edges[k].id);
                }
            }
            assert(wrote[i] == wrote[j]);
        }
    }
    let back = sorted::<Edge>(moved);
    sorted_length::<Edge>(moved);
    sorted_is_in_order::<Edge>(moved);
    sorted_keeps_items::<Edge>(moved);
    assert(moved.no_duplicates());
    moved.lemma_multiset_has_no_duplicates();
    back.lemma_multiset_has_no_duplicates_conv();
    assert forall|i: int| 0 <= i < back.len() implies edges.contains(#[trigger] back[i]) by {
        sorted_contains::<Edge>(moved, back[i]);
        assert(back.contains(back[i]));
        let k = choose|k: int| 0 <= k < moved.len() && moved[k] == back[i];
        edge_is_found(edges, links, k);
    }
    assert forall|i: int| 0 <= i < edges.len() implies back.contains(#[trigger] edges[i]) by {
        assert(all[i] == written_edge(edges[i], links));
        assert(all.contains(all[i]));
        sorted_contains::<EdgeDeclaration>(all, all[i]);
        let k = choose|k: int| 0 <= k < wrote.len() && wrote[k] == all[i];
        edge_is_found(edges, links, k);
        written_edges_differ(moved[k], edges[i], links);
        let m = choose|m: int| 0 <= m < edges.len() && edges[m] == moved[k];
        assert(m == i) by {
            if m < i {
                assert(edges[m].id != edges[i].id);
            } else if i < m {
                assert(edges[i].id != edges[m].id);
            }
        }
        assert(moved.contains(moved[k]));
        sorted_contains::<Edge>(moved, moved[k]);
    }
    assert forall|i: int, j: int| 0 <= i < j < back.len() implies (#[trigger] back[i]).id != (
    #[trigger] back[j]).id by {
        assert(edges.contains(back[i]) && edges.contains(back[j]));
        let k = choose|k: int| 0 <= k < edges.len() && edges[k] == back[i];
        let m = choose|m: int| 0 <= m < edges.len() && edges[m] == back[j];
        assert(back[i] != back[j]);
        if k < m {
            assert(edges[k].id != edges[m].id);
        } else if m < k {
            assert(edges[m].id != edges[k].id);
        }
    }
    edges_in_order_are_one(back, edges);
}

proof fn endpoint_stays(
    build: Build,
    read: EndpointModel,
    reference: ReferenceModel,
    links: Seq<LinkModel>,
    nodes: Seq<NodeModel>,
    minted: Seq<Seq<u8>>,
)
    requires
        names_one_of(reference, nodes),
        build.names == names_of(nodes),
        same_endpoint(read, written_endpoint(reference, links)),
    ensures
        endpoint_added(build, read, minted) == Ok::<_, ConversionErrorModel>((reference, build)),
{
    let id = reference->Local_0;
    let at = choose|i: int| 0 <= i < nodes.len() && (#[trigger] nodes[i]).id == id;
    name_leads_back(nodes, nodes.len() as int, id, at);
}

proof fn edge_stays(
    build: Build,
    read: EdgeDeclarationModel,
    edge: EdgeModel,
    links: Seq<LinkModel>,
    nodes: Seq<NodeModel>,
    minted: Seq<Seq<u8>>,
)
    requires
        sound_edge(edge, nodes),
        build.names == names_of(nodes),
        same_edge(read, written_edge(edge, links)),
    ensures
        edge_added(build, read, minted) == Ok::<_, ConversionErrorModel>(
            Build { edges: build.edges.push(edge), ..build },
        ),
{
    parts_stay(read.record, edge.id.text(), edge.properties, Seq::empty(), edge.contributions);
    edge.id.is_found();
    edge.id.text_reads_back(edge.id);
    assert((Build { used: build.used, ..build }) == build);
    endpoint_stays(build, read.source, edge.source, links, nodes, minted);
    endpoint_stays(build, read.target, edge.target, links, nodes, minted);
    assert(edge.contributions.take(0) =~= Seq::empty());
    sorted_length::<ContributionBlock>(written_contributions(edge.contributions));
    contributions_stay(read.record.contributions, edge.contributions, 0);
    sorted_is_stable::<(PropertyKey, PropertyValue)>(edge.properties);
    sorted_is_stable::<Contribution>(edge.contributions);
}

proof fn edges_stay(read: SourceFileModel, graph: GraphModel, count: int, minted: Seq<Seq<u8>>)
    requires
        sound_graph(graph),
        same_file(read, document_of(graph)),
        0 <= count <= graph.edges.len(),
    ensures
        edges_built(read, count, minted) == Ok::<_, ConversionErrorModel>(
            Build {
                nodes: graph.nodes,
                names: names_of(graph.nodes),
                edges: edges_moved(graph.edges, graph.links).take(count),
                used: 0,
            },
        ),
    decreases count,
{
    let moved = edges_moved(graph.edges, graph.links);
    let all = edges_written(graph.edges, graph.links);
    assert(document_of(graph).edges =~= all);
    sorted_length::<EdgeDeclaration>(all);
    if count == 0 {
        let declared = declared_names(graph.schemas);
        let wrote = nodes_written(graph.nodes, declared);
        assert(document_of(graph).nodes =~= wrote);
        nodes_stand(graph.nodes, declared);
        assert forall|i: int| 0 <= i < graph.nodes.len() implies same_node(
            #[trigger] read.nodes[i],
            written_node(graph.nodes[i], declared),
        ) by {
            assert(same_node(read.nodes[i], wrote[i]));
        }
        nodes_stay(read.nodes, graph.nodes, declared, graph.nodes.len() as int, minted);
        assert(graph.nodes.take(graph.nodes.len() as int) =~= graph.nodes);
        assert(names_of(graph.nodes).take(graph.nodes.len() as int) =~= names_of(graph.nodes));
        assert(moved.take(0) =~= Seq::empty());
    } else {
        edges_stay(read, graph, count - 1, minted);
        let build = edges_built(read, count - 1, minted)->Ok_0;
        let edge = moved[count - 1];
        edge_is_found(graph.edges, graph.links, count - 1);
        let k = choose|k: int| 0 <= k < graph.edges.len() && graph.edges[k] == edge;
        assert(sound_edge(graph.edges[k], graph.nodes));
        assert(same_edge(read.edges[count - 1], written_edge(edge, graph.links)));
        edge_stays(build, read.edges[count - 1], edge, graph.links, graph.nodes, minted);
        assert(moved.take(count - 1).push(edge) =~= moved.take(count));
    }
}

// -- Links and schemas -------------------------------------------------------------

/// The link that a declaration was written for.
spec fn link_of(declaration: LinkDeclarationModel) -> LinkModel {
    LinkModel {
        source: declaration.source.value,
        alias: match declaration.alias {
            None => None,
            Some(alias) => Some(alias.value),
        },
    }
}

proof fn links_stay(read: Seq<LinkDeclarationModel>, links: Seq<LinkModel>, at: int)
    requires
        0 <= at <= links.len(),
        read.len() == links.len(),
        forall|i: int| 0 <= i < links.len() ==> sound_link(#[trigger] links[i]),
        forall|i: int| 0 <= i < links.len() ==> same_link(#[trigger] read[i], written_link(links[i])),
    ensures
        links_from(read, at, links.take(at)) == Ok::<_, ConversionErrorModel>(links),
    decreases links.len() - at,
{
    if at < links.len() {
        assert(same_link(read[at], written_link(links[at])));
        assert(link_from(read[at]) == Ok::<_, ConversionErrorModel>(links[at]));
        assert(links.take(at).push(links[at]) =~= links.take(at + 1));
        links_stay(read, links, at + 1);
    } else {
        assert(links.take(at) =~= links);
    }
}

proof fn fields_stay(read: Seq<super::SchemaFieldModel>, fields: Seq<SchemaFieldModel>, at: int)
    requires
        0 <= at <= fields.len(),
        read.len() == fields.len(),
        forall|i: int| 0 <= i < fields.len() ==> name_fault((#[trigger] fields[i]).key) is None,
        forall|i: int|
            0 <= i < fields.len() ==> same_field(#[trigger] read[i], written_schema_field(fields[i])),
    ensures
        fields_from(read, at, fields.take(at)) == Ok::<_, ConversionErrorModel>(fields),
    decreases fields.len() - at,
{
    if at < fields.len() {
        assert(same_field(read[at], written_schema_field(fields[at])));
        assert(fields.take(at).push(fields[at]) =~= fields.take(at + 1));
        fields_stay(read, fields, at + 1);
    } else {
        assert(fields.take(at) =~= fields);
    }
}

/// A schema that is written and read stays what it was.
proof fn schema_stays(read: SchemaDeclarationModel, schema: SchemaModel)
    requires
        sound_schema(schema),
        same_schema(read, written_schema(schema)),
    ensures
        schema_from(read) == Ok::<_, ConversionErrorModel>(schema),
{
    let wrote = written_schema(schema).fields;
    assert forall|i: int, j: int| 0 <= i < j < wrote.len() implies !super::SchemaField::before(
        #[trigger] wrote[j],
        #[trigger] wrote[i],
    ) by {
        assert(!SchemaField::before(schema.fields[j], schema.fields[i]));
    }
    sorted_is_stable::<super::SchemaField>(wrote);
    assert forall|i: int| 0 <= i < schema.fields.len() implies same_field(
        #[trigger] read.fields[i],
        written_schema_field(schema.fields[i]),
    ) by {
        assert(same_field(read.fields[i], wrote[i]));
    }
    assert(schema.fields.take(0) =~= Seq::empty());
    fields_stay(read.fields, schema.fields, 0);
    sorted_is_stable::<SchemaField>(schema.fields);
}

proof fn schemas_stay(read: Seq<SchemaDeclarationModel>, schemas: Seq<SchemaModel>, at: int)
    requires
        0 <= at <= schemas.len(),
        read.len() == schemas.len(),
        forall|i: int| 0 <= i < schemas.len() ==> sound_schema(#[trigger] schemas[i]),
        forall|i: int|
            0 <= i < schemas.len() ==> same_schema(#[trigger] read[i], written_schema(schemas[i])),
    ensures
        schemas_from(read, at, schemas.take(at)) == Ok::<_, ConversionErrorModel>(schemas),
    decreases schemas.len() - at,
{
    if at < schemas.len() {
        assert(same_schema(read[at], written_schema(schemas[at])));
        schema_stays(read[at], schemas[at]);
        assert(schemas.take(at).push(schemas[at]) =~= schemas.take(at + 1));
        schemas_stay(read, schemas, at + 1);
    } else {
        assert(schemas.take(at) =~= schemas);
    }
}

/// A graph with its edges as they come back from their declarations.
spec fn edges_came_back(graph: GraphModel) -> GraphModel {
    GraphModel { edges: sorted::<Edge>(edges_moved(graph.edges, graph.links)), ..graph }
}

/// A graph whose document was written and read stays the graph, but for the order of edges
/// that share an identifier.
proof fn graph_stays(read: SourceFileModel, graph: GraphModel, minted: Seq<Seq<u8>>)
    requires
        sound_graph(graph),
        same_file(read, document_of(graph)),
    ensures
        graph_from(read, minted) == Ok::<_, ConversionErrorModel>((edges_came_back(graph), 0nat)),
        edges_differ(graph.edges) ==> edges_came_back(graph) == graph,
{
    let file = document_of(graph);
    let links = Seq::new(graph.links.len(), |i: int| written_link(graph.links[i]));
    assert(file.links =~= links);
    assert forall|i: int, j: int| 0 <= i < j < links.len() implies !LinkDeclaration::before(
        #[trigger] links[j],
        #[trigger] links[i],
    ) by {
        assert(!Link::before(graph.links[j], graph.links[i]));
    }
    sorted_is_stable::<LinkDeclaration>(links);
    assert forall|i: int| 0 <= i < graph.links.len() implies same_link(
        #[trigger] read.links[i],
        written_link(graph.links[i]),
    ) by {
        assert(same_link(read.links[i], links[i]));
    }
    assert(graph.links.take(0) =~= Seq::empty());
    links_stay(read.links, graph.links, 0);
    sorted_is_stable::<Link>(graph.links);
    let schemas = Seq::new(graph.schemas.len(), |i: int| written_schema(graph.schemas[i]));
    assert(file.schemas =~= schemas);
    assert forall|i: int, j: int| 0 <= i < j < schemas.len() implies !SchemaDeclaration::before(
        #[trigger] schemas[j],
        #[trigger] schemas[i],
    ) by {
        assert(!Schema::before(graph.schemas[j], graph.schemas[i]));
    }
    sorted_is_stable::<SchemaDeclaration>(schemas);
    assert forall|i: int| 0 <= i < schemas.len() implies same_schema(
        #[trigger] read.schemas[i],
        written_schema(graph.schemas[i]),
    ) by {
        assert(same_schema(read.schemas[i], schemas[i]));
    }
    assert(graph.schemas.take(0) =~= Seq::empty());
    schemas_stay(read.schemas, graph.schemas, 0);
    let edges = edges_written(graph.edges, graph.links);
    assert(file.edges =~= edges);
    sorted_length::<EdgeDeclaration>(edges);
    let moved = edges_moved(graph.edges, graph.links);
    edges_stay(read, graph, graph.edges.len() as int, minted);
    assert(moved.take(graph.edges.len() as int) =~= moved);
    if edges_differ(graph.edges) {
        edges_move_back(graph.edges, graph.links);
    }
    sorted_is_stable::<Node>(graph.nodes);
    sorted_is_stable::<Schema>(graph.schemas);
}

// -- What a graph writes can be read -----------------------------------------------

proof fn unbroken(text: Seq<char>, at: int)
    requires
        0 <= at,
        first_break(text, at) is None,
    ensures
        forall|i: int| at <= i < text.len() ==> xid_continue(#[trigger] text[i]),
    decreases text.len() - at,
{
    if at < text.len() {
        unbroken(text, at + 1);
    }
}

/// A name can be written as one.
proof fn names_are_nameable(text: Seq<char>)
    requires
        name_fault(text) is None,
    ensures
        nameable(text),
{
    unbroken(text, 1);
}

/// A word in ASCII that is told from every reserved word can be written as a name.
proof fn spelled_is_nameable(text: Seq<char>)
    requires
        ascii_name(text),
        text.len() > 1,
        text.len() == 2 ==> text[0] != 'a',
        text.len() == 4 ==> text[0] != 'e' && text[0] != 'n' && text[0] != 't',
        text.len() == 5 ==> text[0] != 'b' && text[0] != 'f',
        text.len() == 6 ==> text[0] != 's' || text[1] != 'c',
        text.len() == 8 ==> text[0] != 'd',
    ensures
        nameable(text),
{
    reveal_strlit("as");
    reveal_strlit("bytes");
    reveal_strlit("datetime");
    reveal_strlit("edge");
    reveal_strlit("false");
    reveal_strlit("node");
    reveal_strlit("schema");
    reveal_strlit("true");
    assert("as"@.len() == 2 && "as"@[0] == 'a');
    assert("bytes"@.len() == 5 && "bytes"@[0] == 'b');
    assert("datetime"@.len() == 8 && "datetime"@[0] == 'd');
    assert("edge"@.len() == 4 && "edge"@[0] == 'e');
    assert("false"@.len() == 5 && "false"@[0] == 'f');
    assert("node"@.len() == 4 && "node"@[0] == 'n');
    assert("schema"@.len() == 6 && "schema"@[0] == 's' && "schema"@[1] == 'c');
    assert("true"@.len() == 4 && "true"@[0] == 't');
    assert(!reserved(text));
    assert forall|i: int| 1 <= i < text.len() implies xid_continue(#[trigger] text[i]) by {}
}

/// The keys and words an exported record is made of can be written.
proof fn words_are_nameable()
    ensures
        nameable("id"@),
        nameable("labels"@),
        nameable("source"@),
        nameable("revision"@),
        nameable("path"@),
        nameable("digest"@),
        nameable("range"@),
        nameable("producer"@),
        nameable("producer_version"@),
        nameable("method"@),
        nameable("confidence"@),
        nameable("deterministic"@),
        nameable("ai_inferred"@),
        nameable("user_declared"@),
        nameable("extracted"@),
        nameable("inferred"@),
        nameable("ambiguous"@),
{
    assert(nameable("id"@)) by {
        reveal_strlit("id");
        assert("id"@ =~= seq!['i', 'd']);
        spelled_is_nameable("id"@);
    }
    assert(nameable("labels"@)) by {
        reveal_strlit("labels");
        assert("labels"@ =~= seq!['l', 'a', 'b', 'e', 'l', 's']);
        spelled_is_nameable("labels"@);
    }
    assert(nameable("source"@)) by {
        reveal_strlit("source");
        assert("source"@ =~= seq!['s', 'o', 'u', 'r', 'c', 'e']);
        spelled_is_nameable("source"@);
    }
    assert(nameable("revision"@)) by {
        reveal_strlit("revision");
        assert("revision"@ =~= seq!['r', 'e', 'v', 'i', 's', 'i', 'o', 'n']);
        spelled_is_nameable("revision"@);
    }
    assert(nameable("path"@)) by {
        reveal_strlit("path");
        assert("path"@ =~= seq!['p', 'a', 't', 'h']);
        spelled_is_nameable("path"@);
    }
    assert(nameable("digest"@)) by {
        reveal_strlit("digest");
        assert("digest"@ =~= seq!['d', 'i', 'g', 'e', 's', 't']);
        spelled_is_nameable("digest"@);
    }
    assert(nameable("range"@)) by {
        reveal_strlit("range");
        assert("range"@ =~= seq!['r', 'a', 'n', 'g', 'e']);
        spelled_is_nameable("range"@);
    }
    assert(nameable("producer"@)) by {
        reveal_strlit("producer");
        assert("producer"@ =~= seq!['p', 'r', 'o', 'd', 'u', 'c', 'e', 'r']);
        spelled_is_nameable("producer"@);
    }
    assert(nameable("producer_version"@)) by {
        reveal_strlit("producer_version");
        assert("producer_version"@ =~= seq!['p', 'r', 'o', 'd', 'u', 'c', 'e', 'r', '_', 'v', 'e', 'r', 's', 'i', 'o', 'n']);
        spelled_is_nameable("producer_version"@);
    }
    assert(nameable("method"@)) by {
        reveal_strlit("method");
        assert("method"@ =~= seq!['m', 'e', 't', 'h', 'o', 'd']);
        spelled_is_nameable("method"@);
    }
    assert(nameable("confidence"@)) by {
        reveal_strlit("confidence");
        assert("confidence"@ =~= seq!['c', 'o', 'n', 'f', 'i', 'd', 'e', 'n', 'c', 'e']);
        spelled_is_nameable("confidence"@);
    }
    assert(nameable("deterministic"@)) by {
        reveal_strlit("deterministic");
        assert("deterministic"@ =~= seq!['d', 'e', 't', 'e', 'r', 'm', 'i', 'n', 'i', 's', 't', 'i', 'c']);
        spelled_is_nameable("deterministic"@);
    }
    assert(nameable("ai_inferred"@)) by {
        reveal_strlit("ai_inferred");
        assert("ai_inferred"@ =~= seq!['a', 'i', '_', 'i', 'n', 'f', 'e', 'r', 'r', 'e', 'd']);
        spelled_is_nameable("ai_inferred"@);
    }
    assert(nameable("user_declared"@)) by {
        reveal_strlit("user_declared");
        assert("user_declared"@ =~= seq!['u', 's', 'e', 'r', '_', 'd', 'e', 'c', 'l', 'a', 'r', 'e', 'd']);
        spelled_is_nameable("user_declared"@);
    }
    assert(nameable("extracted"@)) by {
        reveal_strlit("extracted");
        assert("extracted"@ =~= seq!['e', 'x', 't', 'r', 'a', 'c', 't', 'e', 'd']);
        spelled_is_nameable("extracted"@);
    }
    assert(nameable("inferred"@)) by {
        reveal_strlit("inferred");
        assert("inferred"@ =~= seq!['i', 'n', 'f', 'e', 'r', 'r', 'e', 'd']);
        spelled_is_nameable("inferred"@);
    }
    assert(nameable("ambiguous"@)) by {
        reveal_strlit("ambiguous");
        assert("ambiguous"@ =~= seq!['a', 'm', 'b', 'i', 'g', 'u', 'o', 'u', 's']);
        spelled_is_nameable("ambiguous"@);
    }
}

proof fn digits_run_on(text: Seq<char>, at: int)
    requires
        0 <= at,
    ensures
        at <= fraction_run(text, at),
        at <= text.len() ==> fraction_run(text, at) <= text.len(),
        forall|i: int| at <= i < fraction_run(text, at) ==> '0' <= #[trigger] text[i] && text[i] <= '9',
    decreases text.len() - at,
{
    if at < text.len() && '0' <= text[at] && text[at] <= '9' {
        digits_run_on(text, at + 1);
    }
}

proof fn scalar_is_writable(scalar: ScalarModel)
    requires
        sound_scalar(scalar),
    ensures
        writable_scalar(written_scalar(scalar)),
{
    match scalar {
        ScalarModel::Integer(number) => shown_is_numeral(number as int),
        ScalarModel::Float(bits) => shown_double_is_numeral(bits),
        ScalarModel::Bytes(bytes) => hex_stays(bytes),
        _ => {},
    }
}

proof fn value_is_writable(value: PropertyModel)
    requires
        sound_value(value),
    ensures
        writable_value(written_value(value)),
{
    match value {
        PropertyModel::Scalar(scalar) => scalar_is_writable(scalar),
        PropertyModel::List(items) => {
            let list = written_value(value)->List_0;
            assert forall|i: int| 0 <= i < list.len() implies writable_scalar(
                (#[trigger] list[i]).value,
            ) by {
                scalar_is_writable(items[i]);
            }
        },
    }
}

/// Whether an evidence field can be written, and carries no comment behind it.
spec fn bare_field(field: EvidenceFieldModel) -> bool {
    writable_evidence_field(field) && field.comments.trailing is None
}

/// Whether all fields are bare.
spec fn bare_fields(fields: Seq<EvidenceFieldModel>) -> bool {
    forall|i: int| 0 <= i < fields.len() ==> bare_field(#[trigger] fields[i])
}

proof fn bare_together(first: Seq<EvidenceFieldModel>, second: Seq<EvidenceFieldModel>)
    requires
        bare_fields(first),
        bare_fields(second),
    ensures
        bare_fields(first + second),
{
    let both = first + second;
    assert forall|i: int| 0 <= i < both.len() implies bare_field(#[trigger] both[i]) by {
        if i < first.len() {
            assert(both[i] == first[i]);
        } else {
            assert(both[i] == second[i - first.len()]);
        }
    }
}

proof fn written_is_bare(key: Seq<char>, value: EvidenceValueModel)
    requires
        nameable(key),
        writable_evidence(value),
    ensures
        bare_fields(seq![written_field(key, value)]),
{
    assert(bare_field(written_field(key, value)));
}

proof fn optional_is_bare(key: Seq<char>, text: Option<Seq<char>>)
    requires
        nameable(key),
    ensures
        bare_fields(optional_field(key, text)),
{
    if let Some(found) = text {
        written_is_bare(key, EvidenceValueModel::Text(found));
    }
}

proof fn confidence_is_writable(confidence: Confidence)
    requires
        sound_confidence(confidence),
    ensures
        writable_evidence(written_confidence(confidence)),
{
    words_are_nameable();
    match confidence {
        Confidence::Extracted => {},
        Confidence::Inferred { score } => score_stays(score),
        Confidence::Ambiguous { score } => score_stays(score),
    }
}

proof fn evidence_is_writable(entry: EvidenceModel, inherited: Option<(Seq<char>, Seq<char>)>)
    requires
        sound_evidence(entry),
    ensures
        writable_evidence_block(written_evidence(entry, inherited)),
{
    let fields = written_fields(entry, inherited);
    words_are_nameable();
    confidence_is_writable(entry.confidence);
    let a = Seq::empty().push(text_field("source"@, entry.source));
    assert(a =~= seq![text_field("source"@, entry.source)]);
    written_is_bare("source"@, EvidenceValueModel::Text(entry.source));
    let b = optional_field("revision"@, entry.resolved_revision);
    optional_is_bare("revision"@, entry.resolved_revision);
    let c = optional_field("path"@, entry.path);
    optional_is_bare("path"@, entry.path);
    let d = seq![text_field("digest"@, entry.content_digest)];
    written_is_bare("digest"@, EvidenceValueModel::Text(entry.content_digest));
    let e = optional_field("range"@, range_text(entry.range));
    optional_is_bare("range"@, range_text(entry.range));
    let f = producer_fields(entry, inherited);
    assert(bare_fields(f)) by {
        let one = text_field("producer"@, entry.producer);
        let two = text_field("producer_version"@, entry.producer_version);
        written_is_bare("producer"@, EvidenceValueModel::Text(entry.producer));
        written_is_bare("producer_version"@, EvidenceValueModel::Text(entry.producer_version));
        bare_together(seq![one], seq![two]);
        assert(seq![one] + seq![two] =~= seq![one, two]);
    }
    let g = seq![written_field("method"@, written_method(entry.method))];
    written_is_bare("method"@, written_method(entry.method));
    let h = seq![written_field("confidence"@, written_confidence(entry.confidence))];
    written_is_bare("confidence"@, written_confidence(entry.confidence));
    bare_together(a, b);
    bare_together(a + b, c);
    bare_together(a + b + c, d);
    bare_together(a + b + c + d, e);
    bare_together(a + b + c + d + e, f);
    bare_together(a + b + c + d + e + f, g);
    bare_together(a + b + c + d + e + f + g, h);
    let bare = |field: EvidenceFieldModel| bare_field(field);
    assert forall|i: int| 0 <= i < fields.len() implies bare(#[trigger] fields[i]) by {
        assert(bare_field(fields[i]));
    }
    sorted_all::<EvidenceField>(fields, bare);
    let ordered = sorted::<EvidenceField>(fields);
    if ordered.len() > 0 {
        assert(bare(ordered[ordered.len() - 1]));
    }
    assert forall|i: int| 0 <= i < fields.len() implies writable_evidence_field(
        #[trigger] fields[i],
    ) by {
        assert(bare_field(fields[i]));
    }
}

proof fn contributions_are_writable(entries: Seq<ContributionModel>)
    requires
        forall|i: int| 0 <= i < entries.len() ==> sound_contribution(#[trigger] entries[i]),
    ensures
        forall|i: int|
            0 <= i < entries.len() ==> writable_contribution(
                #[trigger] written_contributions(entries)[i],
            ),
{
    let wrote = written_contributions(entries);
    assert forall|i: int| 0 <= i < entries.len() implies writable_contribution(
        #[trigger] wrote[i],
    ) by {
        let entry = entries[i];
        assert(sound_contribution(entry));
        let evidence = wrote[i].evidence;
        assert forall|k: int| 0 <= k < evidence.len() implies writable_evidence_block(
            #[trigger] evidence[k],
        ) by {
            evidence_is_writable(entry.evidence[k], owner_supplies(entry.owner));
        }
    }
}

proof fn record_is_writable(
    id: Seq<char>,
    properties: Seq<(Seq<char>, PropertyModel)>,
    extra: Seq<Seq<char>>,
    contributions: Seq<ContributionModel>,
)
    requires
        sound_properties(properties),
        sound_contributions(contributions),
    ensures
        writable_record(written_record(id, properties, extra, contributions)),
{
    let record = written_record(id, properties, extra, contributions);
    let first = seq![written_property("id"@, ValueModel::String(id))];
    let second = labels_property(extra);
    let third = ordinary_properties(properties);
    words_are_nameable();
    contributions_are_writable(contributions);
    assert forall|i: int| 0 <= i < record.properties.len() implies writable_property(
        #[trigger] record.properties[i],
    ) by {
        if i < first.len() {
            assert(record.properties[i] == first[i]);
        } else if i < first.len() + second.len() {
            assert(record.properties[i] == second[i - first.len()]);
            let list = second[0].value.value->List_0;
            assert forall|k: int| 0 <= k < list.len() implies writable_scalar(
                (#[trigger] list[k]).value,
            ) by {}
        } else {
            let k = i - first.len() - second.len();
            assert(record.properties[i] == third[k]);
            assert(sound_property(properties[k]));
            names_are_nameable(properties[k].0);
            value_is_writable(properties[k].1);
        }
    }
    assert forall|i: int| 0 <= i < record.contributions.len() implies writable_contribution(
        #[trigger] record.contributions[i],
    ) by {
        assert(record.contributions[i] == written_contributions(contributions)[i]);
    }
}

proof fn generated_is_nameable(id: LocalNodeId)
    ensures
        nameable(name_of(id)),
{
    generated_names_are_names(id);
    let name = name_of(id);
    assert forall|i: int| 1 <= i < name.len() implies xid_continue(#[trigger] name[i]) by {}
}

/// Whether every node has a label.
pub open spec fn labelled(nodes: Seq<NodeModel>) -> bool {
    forall|i: int| 0 <= i < nodes.len() ==> (#[trigger] nodes[i]).labels.len() > 0
}

proof fn node_is_writable(node: NodeModel, declared: Seq<Seq<char>>)
    requires
        sound_node(node),
        node.labels.len() > 0,
    ensures
        writable_node(written_node(node, declared)),
{
    let named = named_part(node.labels, declared);
    generated_is_nameable(node.id);
    record_is_writable(
        node.id.text(),
        node.properties,
        extra_part(node.labels, declared),
        node.contributions,
    );
    chosen_in_order(node.labels, node.labels.len() as int, declared, true);
    let wrote = written_node(node, declared).schemas;
    assert forall|i: int| 0 <= i < wrote.len() implies nameable((#[trigger] wrote[i]).value) by {
        assert(wrote[i].value == named[i]);
        let found = chosen(node.labels, node.labels.len() as int, declared, true);
        if found.len() == 0 {
            assert(named[i] == node.labels[0]);
            names_are_nameable(node.labels[0]);
        } else {
            assert(named[i] == found[i]);
            let k = choose|k: int|
                0 <= k < node.labels.len() && node.labels[k] == found[i];
            names_are_nameable(node.labels[k]);
        }
    }
}

proof fn edge_is_writable(edge: EdgeModel, nodes: Seq<NodeModel>, links: Seq<LinkModel>)
    requires
        sound_edge(edge, nodes),
    ensures
        writable_edge(written_edge(edge, links)),
{
    generated_is_nameable(edge.source->Local_0);
    generated_is_nameable(edge.target->Local_0);
    names_are_nameable(edge.relation);
    record_is_writable(edge.id.text(), edge.properties, Seq::empty(), edge.contributions);
}

proof fn schema_is_writable(schema: SchemaModel)
    requires
        sound_schema(schema),
    ensures
        writable_schema(written_schema(schema)),
{
    names_are_nameable(schema.name);
    if let Some(ends) = schema.endpoints {
        names_are_nameable(ends.source);
        names_are_nameable(ends.target);
    }
    let fields = written_schema(schema).fields;
    let fine = |field: super::SchemaFieldModel|
        writable_field(field) && field.comments.trailing is None;
    assert forall|i: int| 0 <= i < fields.len() implies fine(#[trigger] fields[i]) by {
        names_are_nameable(schema.fields[i].key);
    }
    sorted_all::<super::SchemaField>(fields, fine);
    let ordered = sorted::<super::SchemaField>(fields);
    if ordered.len() > 0 {
        assert(fine(ordered[ordered.len() - 1]));
    }
    assert forall|i: int| 0 <= i < fields.len() implies writable_field(#[trigger] fields[i]) by {
        assert(fine(fields[i]));
    }
}

/// The document of a graph can be written.
proof fn document_is_writable(graph: GraphModel)
    requires
        sound_graph(graph),
        labelled(graph.nodes),
    ensures
        writable(document_of(graph)),
{
    let file = document_of(graph);
    assert forall|i: int| 0 <= i < file.links.len() implies writable_link(#[trigger] file.links[i]) by {
        assert(sound_link(graph.links[i]));
        if let Some(alias) = graph.links[i].alias {
            names_are_nameable(alias);
        }
    }
    assert forall|i: int| 0 <= i < file.schemas.len() implies writable_schema(
        #[trigger] file.schemas[i],
    ) by {
        schema_is_writable(graph.schemas[i]);
    }
    assert forall|i: int| 0 <= i < file.nodes.len() implies writable_node(
        #[trigger] file.nodes[i],
    ) by {
        assert(sound_node(graph.nodes[i]) && graph.nodes[i].labels.len() > 0);
        node_is_writable(graph.nodes[i], declared_names(graph.schemas));
    }
    assert forall|i: int| 0 <= i < file.edges.len() implies writable_edge(
        #[trigger] file.edges[i],
    ) by {
        assert(sound_edge(graph.edges[i], graph.nodes));
        edge_is_writable(graph.edges[i], graph.nodes, graph.links);
    }
}

// -- The fixed point ---------------------------------------------------------------

/// The text of a graph reads back as the graph: parsing it and converting it gives the same
/// nodes, edges, schemas and links, and mints no identifier. Every node needs a label, for a declaration names one, and no two edges may
/// share an identifier, for by it they find their places again.
pub proof fn written_graph_reads_back(graph: GraphModel, minted: Seq<Seq<u8>>)
    requires
        sound_graph(graph),
        labelled(graph.nodes),
        edges_differ(graph.edges),
    ensures
        parsed(formatted(document_of(graph))) matches Ok(again) && graph_from(again, minted) == Ok::<
            _,
            ConversionErrorModel,
        >((graph, 0nat)),
{
    document_is_writable(graph);
    formatted_file_reads_back(document_of(graph));
    if let Ok(again) = parsed(formatted(document_of(graph))) {
        graph_stays(again, graph, minted);
    }
}

// -- Documents that were converted -------------------------------------------------

proof fn named_are_there(named: Seq<Spanned<Seq<char>>>, at: int, before: Seq<Seq<char>>)
    requires
        0 <= at <= named.len(),
    ensures
        named_labels(named, at, before) matches Ok(found) ==> found.len() >= before.len() && (at
            < named.len() ==> found.len() > 0),
    decreases named.len() - at,
{
    if at < named.len() {
        named_are_there(named, at + 1, with_new(before, named[at].value));
    }
}

proof fn extra_are_there(
    extra: Seq<Seq<char>>,
    at: int,
    range: SourceRange,
    before: Seq<Seq<char>>,
)
    requires
        0 <= at <= extra.len(),
    ensures
        extra_labels(extra, at, range, before) matches Ok(found) ==> found.len() >= before.len(),
    decreases extra.len() - at,
{
    if at < extra.len() {
        extra_are_there(extra, at + 1, range, with_new(before, extra[at]));
    }
}

proof fn node_added_is_labelled(
    build: Build,
    declaration: NodeDeclarationModel,
    minted: Seq<Seq<u8>>,
)
    requires
        labelled(build.nodes),
        declaration.schemas.len() > 0,
    ensures
        node_added(build, declaration, minted) matches Ok(next) ==> labelled(next.nodes),
{
    if let Ok(next) = node_added(build, declaration, minted) {
        let parts = parts_of(declaration.record)->Ok_0;
        let range = declaration.name.range;
        named_are_there(declaration.schemas, 0, Seq::empty());
        let named = named_labels(declaration.schemas, 0, Seq::empty())->Ok_0;
        extra_are_there(parts.extra, 0, range, named);
        let labels = labels_from(declaration.schemas, parts.extra, range)->Ok_0;
        sorted_length::<Label>(labels);
        assert forall|i: int| 0 <= i < next.nodes.len() implies (#[trigger] next.nodes[i]).labels.len()
            > 0 by {
            if i < build.nodes.len() {
                assert(next.nodes[i] == build.nodes[i]);
            }
        }
    }
}

proof fn endpoint_added_is_labelled(build: Build, endpoint: EndpointModel, minted: Seq<Seq<u8>>)
    requires
        labelled(build.nodes),
    ensures
        endpoint_added(build, endpoint, minted) matches Ok((_, next)) ==> labelled(next.nodes),
{
    if let Ok((_, next)) = endpoint_added(build, endpoint, minted) {
        assert forall|i: int| 0 <= i < next.nodes.len() implies (#[trigger] next.nodes[i]).labels.len()
            > 0 by {
            if i < build.nodes.len() {
                assert(next.nodes[i] == build.nodes[i]);
            }
        }
    }
}

proof fn edge_added_is_labelled(
    build: Build,
    declaration: EdgeDeclarationModel,
    minted: Seq<Seq<u8>>,
)
    requires
        labelled(build.nodes),
    ensures
        edge_added(build, declaration, minted) matches Ok(next) ==> labelled(next.nodes),
{
    if let Ok(next) = edge_added(build, declaration, minted) {
        let parts = parts_of(declaration.record)->Ok_0;
        let (_, used) = edge_id(parts.id, declaration.relation.range, minted, build.used)->Ok_0;
        let first = Build { used, ..build };
        endpoint_added_is_labelled(first, declaration.source, minted);
        let (_, second) = endpoint_added(first, declaration.source, minted)->Ok_0;
        endpoint_added_is_labelled(second, declaration.target, minted);
    }
}

proof fn nodes_built_are_labelled(
    declarations: Seq<NodeDeclarationModel>,
    count: int,
    minted: Seq<Seq<u8>>,
)
    requires
        forall|i: int|
            0 <= i < declarations.len() ==> (#[trigger] declarations[i]).schemas.len() > 0,
        count <= declarations.len(),
    ensures
        nodes_built(declarations, count, minted) matches Ok(build) ==> labelled(build.nodes),
    decreases count,
{
    if count > 0 {
        nodes_built_are_labelled(declarations, count - 1, minted);
        if let Ok(build) = nodes_built(declarations, count - 1, minted) {
            node_added_is_labelled(build, declarations[count - 1], minted);
        }
    }
}

proof fn edges_built_are_labelled(file: SourceFileModel, count: int, minted: Seq<Seq<u8>>)
    requires
        forall|i: int| 0 <= i < file.nodes.len() ==> (#[trigger] file.nodes[i]).schemas.len() > 0,
    ensures
        edges_built(file, count, minted) matches Ok(build) ==> labelled(build.nodes),
    decreases count,
{
    if count <= 0 {
        nodes_built_are_labelled(file.nodes, file.nodes.len() as int, minted);
    } else {
        edges_built_are_labelled(file, count - 1, minted);
        if let Ok(build) = edges_built(file, count - 1, minted) {
            edge_added_is_labelled(build, file.edges[count - 1], minted);
        }
    }
}

/// A document whose nodes name schemas is converted to a graph whose nodes have labels.
proof fn converted_nodes_are_labelled(file: SourceFileModel, minted: Seq<Seq<u8>>)
    requires
        forall|i: int| 0 <= i < file.nodes.len() ==> (#[trigger] file.nodes[i]).schemas.len() > 0,
    ensures
        graph_from(file, minted) matches Ok((graph, _)) ==> labelled(graph.nodes),
{
    if let Ok((graph, _)) = graph_from(file, minted) {
        edges_built_are_labelled(file, file.edges.len() as int, minted);
        let build = edges_built(file, file.edges.len() as int, minted)->Ok_0;
        let holds = |node: NodeModel| node.labels.len() > 0;
        sorted_all::<Node>(build.nodes, holds);
        assert forall|i: int| 0 <= i < graph.nodes.len() implies (#[trigger] graph.nodes[i]).labels.len()
            > 0 by {
            assert(holds(graph.nodes[i]));
        }
    }
}

/// Edges in the order of their declarations, sorted by their identifiers and written again,
/// are written in that order again: where two declarations tie, so do the identifiers.
proof fn sorted_there_and_back(edges: Seq<EdgeModel>, links: Seq<LinkModel>)
    requires
        in_order::<EdgeDeclaration>(edges_written(edges, links)),
    ensures
        sorted::<EdgeDeclaration>(edges_written(sorted::<Edge>(edges), links)) == edges_written(
            edges,
            links,
        ),
    decreases edges.len(),
{
    let wrote = edges_written(edges, links);
    if edges.len() == 0 {
        assert(edges_written(sorted::<Edge>(edges), links) =~= wrote);
    } else {
        let front = edges.drop_last();
        let edge = edges.last();
        let last = written_edge(edge, links);
        let n = front.len() as int;
        assert(edges_written(front, links) =~= wrote.drop_last());
        assert forall|i: int, j: int| 0 <= i < j < n implies !EdgeDeclaration::before(
            #[trigger] edges_written(front, links)[j],
            #[trigger] edges_written(front, links)[i],
        ) by {
            assert(!EdgeDeclaration::before(wrote[j], wrote[i]));
        }
        sorted_there_and_back(front, links);
        let rest = sorted::<Edge>(front);
        sorted_length::<Edge>(front);
        let at = place::<Edge>(rest, n, edge);
        place_bounds::<Edge>(rest, n, edge);
        sorted_is_in_order::<Edge>(front);
        place_splits::<Edge>(rest, n, edge);
        let behind = edges_written(rest, links);
        assert forall|k: int| 0 <= k < n implies !EdgeDeclaration::before(
            last,
            #[trigger] behind[k],
        ) && (k >= at ==> EdgeDeclaration::before(behind[k], last)) by {
            assert(rest.contains(rest[k]));
            sorted_contains::<Edge>(front, rest[k]);
            let i = choose|i: int| 0 <= i < front.len() && front[i] == rest[k];
            assert(behind[k] == wrote[i] && last == wrote[n]);
            assert(!EdgeDeclaration::before(wrote[n], wrote[i]));
            if k >= at {
                assert(Edge::before(edge, rest[k]));
                keys_of_edges_differ(edge, rest[k], links);
            }
        }
        assert(edges_written(rest.insert(at, edge), links) =~= behind.insert(at, last));
        item_moves_to_the_end::<EdgeDeclaration>(behind, at, last);
        last_goes_last::<EdgeDeclaration>(behind, last);
        assert(wrote =~= wrote.drop_last().push(last));
    }
}

/// Edges with different identifiers do not tie.
proof fn keys_of_edges_differ(left: EdgeModel, right: EdgeModel, links: Seq<LinkModel>)
    requires
        Edge::before(left, right),
        !EdgeDeclaration::before(written_edge(left, links), written_edge(right, links)),
    ensures
        EdgeDeclaration::before(written_edge(right, links), written_edge(left, links)),
{
    let a = written_edge(left, links);
    let b = written_edge(right, links);
    assert(a.record.properties[0] == written_property("id"@, ValueModel::String(left.id.text())));
    assert(b.record.properties[0] == written_property("id"@, ValueModel::String(right.id.text())));
    assert(stated_id(a.record) == left.id.text());
    assert(stated_id(b.record) == right.id.text());
    if !EdgeDeclaration::before(b, a) {
        keys_are_total(edge_key(a), edge_key(b), 0);
        assert(edge_key(a)[3] == edge_key(b)[3]);
        left.id.text_reads_back(right.id);
        Edge::before_is_asymmetric(left, right);
    }
}

/// Edges that came back from their declarations are written as they were.
proof fn edges_come_back_written_the_same(graph: GraphModel)
    requires
        sound_graph(graph),
    ensures
        formatted(document_of(edges_came_back(graph))) == formatted(document_of(graph)),
{
    let links = graph.links;
    let all = edges_written(graph.edges, links);
    let wrote = sorted::<EdgeDeclaration>(all);
    let moved = edges_moved(graph.edges, links);
    let back = sorted::<Edge>(moved);
    sorted_length::<EdgeDeclaration>(all);
    sorted_length::<Edge>(moved);
    sorted_is_in_order::<EdgeDeclaration>(all);
    assert(edges_written(moved, links) =~= wrote) by {
        assert forall|i: int| 0 <= i < moved.len() implies #[trigger] edges_written(moved, links)[i]
            == wrote[i] by {
            edge_is_found(graph.edges, links, i);
        }
    }
    sorted_there_and_back(moved, links);
    let other = edges_came_back(graph);
    assert(document_of(graph).edges =~= all);
    assert(document_of(other).edges =~= edges_written(back, links));
    assert(document_of(other).nodes =~= document_of(graph).nodes);
    assert(document_of(other).links =~= document_of(graph).links);
    assert(document_of(other).schemas =~= document_of(graph).schemas);
}

/// Export is a fixed point. Whatever source was parsed and converted, the text of its graph
/// parses and converts again, and the text of what that gives is the same, character for
/// character. Where no two edges share an identifier, it gives the same graph.
pub proof fn exported_text_is_a_fixed_point(
    source: Seq<char>,
    minted: Seq<Seq<u8>>,
    more: Seq<Seq<u8>>,
)
    ensures
        parsed(source) matches Ok(file) ==> (graph_from(file, minted) matches Ok((graph, _)) ==> (
        parsed(formatted(document_of(graph))) matches Ok(again) && (graph_from(again, more) matches Ok(
            (found, used),
        ) && used == 0 && (edges_differ(graph.edges) ==> found == graph) && formatted(
            document_of(found),
        ) == formatted(document_of(graph))))),
{
    parsed_file_can_be_written(source);
    if let Ok(file) = parsed(source) {
        converted_graph_is_sound(file, minted);
        converted_nodes_are_labelled(file, minted);
        if let Ok((graph, _)) = graph_from(file, minted) {
            document_is_writable(graph);
            formatted_file_reads_back(document_of(graph));
            let again = parsed(formatted(document_of(graph)))->Ok_0;
            graph_stays(again, graph, more);
            edges_come_back_written_the_same(graph);
        }
    }
}

} // verus!
