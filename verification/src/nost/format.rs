//! The canonical formatter.
//!
//! Canonical output exists so a second format pass is byte-identical and a Git diff shows
//! graph change rather than layout churn.
//!
//! Links sort by locator, then schemas and nodes by name, then edges by source endpoint,
//! target endpoint, relation, and identifier. Field keys, property keys, and label values,
//! whether schema names or listed under the reserved key `labels`, sort by Unicode scalar
//! value, so canonical output does not depend on the environment.
//!
//! One blank line separates the version header, the link group, and each schema, node, and
//! edge declaration. Fields and properties are separated by commas; a trailing comma is
//! accepted on input and never written.

use super::list_model;
use super::Comment;
use super::CommentModel;
use super::Comments;
use super::CommentsModel;
use super::ContributionBlock;
use super::ContributionBlockModel;
use super::EdgeDeclaration;
use super::EdgeDeclarationModel;
use super::Endpoint;
use super::EndpointModel;
use super::EvidenceBlock;
use super::EvidenceBlockModel;
use super::EvidenceField;
use super::EvidenceFieldModel;
use super::EvidenceValue;
use super::EvidenceValueModel;
use super::LinkDeclaration;
use super::LinkDeclarationModel;
use super::NodeDeclaration;
use super::NodeDeclarationModel;
use super::OwnerDeclaration;
use super::OwnerDeclarationModel;
use super::Property;
use super::PropertyModel;
use super::RecordBody;
use super::RecordBodyModel;
use super::SchemaDeclaration;
use super::SchemaDeclarationModel;
use super::SchemaField;
use super::SchemaFieldModel;
use super::SourceFile;
use super::SourceFileModel;
use super::Spanned;
use super::Value;
use super::ValueModel;
use crate::contribution::OwnerKind;
use crate::decimal::lower_char;
use crate::decimal::lowered;
use crate::decimal::parse_double;
use crate::decimal::read_double;
use crate::float::finite;
use crate::float::is_finite;
use crate::number::digits_of;
use crate::number::parse_signed;
use crate::number::read_signed;
use crate::number::show_signed;
use crate::number::shown;
use crate::number::write_digits;
use crate::order::in_sequence;
use crate::order::keys_are_asymmetric;
use crate::order::keys_are_ranked;
use crate::order::keys_before;
use crate::order::sort;
use crate::order::sorted;
use crate::order::texts_are_asymmetric;
use crate::order::texts_are_ranked;
use crate::order::Ordered;
use crate::shortest::show_double;
use crate::shortest::shown_double;
use crate::text::characters;
use crate::text::is_before;
use crate::text::precedes;
use crate::text::same;
use crate::text::views_push;
use crate::text::views;
use crate::unicode::control;
use crate::unicode::is_control;
use vstd::prelude::*;
use vstd::string::StringExecFns;

verus! {

// -- Lines and comments ------------------------------------------------------------

/// Two spaces for each level.
pub open spec fn indent(depth: nat) -> Seq<char>
    decreases depth,
{
    if depth == 0 {
        Seq::empty()
    } else {
        indent((depth - 1) as nat) + "  "@
    }
}

/// One line.
pub open spec fn line(depth: nat, text: Seq<char>) -> Seq<char> {
    indent(depth) + text + "\n"@
}

/// A comment as it is written.
pub open spec fn comment_text(comment: CommentModel) -> Seq<char> {
    if comment.block {
        "/*"@ + comment.text + "*/"@
    } else if comment.text.len() == 0 {
        "//"@
    } else {
        "// "@ + comment.text
    }
}

/// The first `count` comments, each on its own line.
pub open spec fn comment_lines(depth: nat, comments: Seq<CommentModel>, count: int) -> Seq<char>
    decreases count,
{
    if count <= 0 {
        Seq::empty()
    } else {
        comment_lines(depth, comments, count - 1) + line(depth, comment_text(comments[count - 1]))
    }
}

/// All of the comments, each on its own line.
pub open spec fn own_lines(depth: nat, comments: Seq<CommentModel>) -> Seq<char> {
    comment_lines(depth, comments, comments.len() as int)
}

/// A text with the comment that trails it.
pub open spec fn with_trailing(text: Seq<char>, comments: CommentsModel) -> Seq<char> {
    match comments.trailing {
        Some(comment) => text + " "@ + comment_text(comment),
        None => text,
    }
}

// -- Literals ----------------------------------------------------------------------

/// The upper-case hexadecimal digit with a value.
pub open spec fn upper_hex_digit(value: int) -> char {
    if value < 10 {
        ('0' as int + value) as char
    } else {
        ('A' as int + value - 10) as char
    }
}

/// A number in upper-case hexadecimal digits, without leading zeros.
pub open spec fn upper_hex(number: nat) -> Seq<char>
    decreases number,
{
    if number < 16 {
        seq![upper_hex_digit(number as int)]
    } else {
        upper_hex(number / 16).push(upper_hex_digit((number % 16) as int))
    }
}

/// A character as it stands in a string literal.
pub open spec fn escaped_char(c: char) -> Seq<char> {
    if c == '"' {
        seq!['\\', '"']
    } else if c == '\\' {
        seq!['\\', '\\']
    } else if c == '\n' {
        seq!['\\', 'n']
    } else if c == '\r' {
        seq!['\\', 'r']
    } else if c == '\t' {
        seq!['\\', 't']
    } else if control(c) {
        seq!['\\', 'u', '{'] + upper_hex(c as nat) + seq!['}']
    } else {
        seq![c]
    }
}

/// The first `count` characters as they stand in a string literal.
pub open spec fn escaped_part(text: Seq<char>, count: int) -> Seq<char>
    decreases count,
{
    if count <= 0 {
        Seq::empty()
    } else {
        escaped_part(text, count - 1) + escaped_char(text[count - 1])
    }
}

/// A string literal.
pub open spec fn literal(text: Seq<char>) -> Seq<char> {
    seq!['"'] + escaped_part(text, text.len() as int) + seq!['"']
}

/// An integer literal, normalized where it fits in 64 bits and as written elsewhere.
pub open spec fn integer_text(text: Seq<char>) -> Seq<char> {
    match read_signed(text) {
        Some(number) => shown(number),
        None => text,
    }
}

/// A float literal, normalized where it can be read as a finite number and as written
/// elsewhere.
pub open spec fn float_text(text: Seq<char>) -> Seq<char> {
    match read_double(text) {
        Some(bits) => if finite(bits) {
            shown_double(bits)
        } else {
            text
        },
        None => text,
    }
}

/// The first `count` items of a list, separated by commas.
pub open spec fn items_text(items: Seq<Spanned<ValueModel>>, count: nat) -> Seq<char>
    decreases items, count,
{
    if count == 0 || count > items.len() {
        Seq::empty()
    } else if count == 1 {
        value_text(items[0].value)
    } else {
        items_text(items, (count - 1) as nat) + ", "@ + value_text(items[count - 1].value)
    }
}

/// A value as it is written.
pub open spec fn value_text(value: ValueModel) -> Seq<char>
    decreases value, 0nat,
{
    match value {
        ValueModel::Boolean(flag) => if flag {
            "true"@
        } else {
            "false"@
        },
        ValueModel::Integer(text) => integer_text(text),
        ValueModel::Float(text) => float_text(text),
        ValueModel::String(text) => literal(text),
        ValueModel::Bytes { digits, .. } => "bytes\""@ + lowered(digits) + "\""@,
        ValueModel::DateTime(text) => "datetime"@ + literal(text),
        ValueModel::List(items) => "["@ + items_text(items, items.len()) + "]"@,
    }
}

/// An endpoint as it is written.
pub open spec fn endpoint_text(endpoint: EndpointModel) -> Seq<char> {
    match endpoint {
        EndpointModel::Local(name) => name.value,
        EndpointModel::Aliased { alias, name } => alias.value + "::"@ + name.value,
        EndpointModel::Locator { locator, name } => literal(locator.value) + "::"@ + name.value,
    }
}

/// An owner as it is written.
pub open spec fn owner_text(owner: OwnerDeclarationModel) -> Seq<char> {
    match owner {
        OwnerDeclarationModel::Analyzer { name, version } => "analyzer "@ + literal(name.value)
            + " "@ + literal(version.value),
        OwnerDeclarationModel::Ai { contract_digest } => "ai "@ + literal(contract_digest.value),
        OwnerDeclarationModel::User { .. } => "user"@,
        OwnerDeclarationModel::Named { name } => literal(name.value),
    }
}

/// An evidence value as it is written.
pub open spec fn evidence_value_text(value: EvidenceValueModel) -> Seq<char> {
    match value {
        EvidenceValueModel::Text(text) => literal(text),
        EvidenceValueModel::Enumerator { name, score } => match score {
            Some(number) => name + "("@ + float_text(number) + ")"@,
            None => name,
        },
    }
}

// -- Order -------------------------------------------------------------------------

impl Ordered for Property {
    open spec fn before(left: PropertyModel, right: PropertyModel) -> bool {
        precedes(left.key.value, right.key.value)
    }

    proof fn before_is_asymmetric(left: PropertyModel, right: PropertyModel) {
        texts_are_asymmetric(left.key.value, right.key.value);
    }

    proof fn before_is_ranked(first: PropertyModel, second: PropertyModel, third: PropertyModel) {
        texts_are_ranked(first.key.value, second.key.value, third.key.value);
    }

    fn comes_before(&self, other: &Self) -> (answer: bool) {
        is_before(self.key.value.as_str(), other.key.value.as_str())
    }
}

impl Ordered for EvidenceField {
    open spec fn before(left: EvidenceFieldModel, right: EvidenceFieldModel) -> bool {
        precedes(left.key.value, right.key.value)
    }

    proof fn before_is_asymmetric(left: EvidenceFieldModel, right: EvidenceFieldModel) {
        texts_are_asymmetric(left.key.value, right.key.value);
    }

    proof fn before_is_ranked(first: EvidenceFieldModel, second: EvidenceFieldModel, third: EvidenceFieldModel) {
        texts_are_ranked(first.key.value, second.key.value, third.key.value);
    }

    fn comes_before(&self, other: &Self) -> (answer: bool) {
        is_before(self.key.value.as_str(), other.key.value.as_str())
    }
}

impl Ordered for SchemaField {
    open spec fn before(left: SchemaFieldModel, right: SchemaFieldModel) -> bool {
        precedes(left.key.value, right.key.value)
    }

    proof fn before_is_asymmetric(left: SchemaFieldModel, right: SchemaFieldModel) {
        texts_are_asymmetric(left.key.value, right.key.value);
    }

    proof fn before_is_ranked(first: SchemaFieldModel, second: SchemaFieldModel, third: SchemaFieldModel) {
        texts_are_ranked(first.key.value, second.key.value, third.key.value);
    }

    fn comes_before(&self, other: &Self) -> (answer: bool) {
        is_before(self.key.value.as_str(), other.key.value.as_str())
    }
}

impl Ordered for LinkDeclaration {
    open spec fn before(left: LinkDeclarationModel, right: LinkDeclarationModel) -> bool {
        precedes(left.source.value, right.source.value)
    }

    proof fn before_is_asymmetric(left: LinkDeclarationModel, right: LinkDeclarationModel) {
        texts_are_asymmetric(left.source.value, right.source.value);
    }

    proof fn before_is_ranked(first: LinkDeclarationModel, second: LinkDeclarationModel, third: LinkDeclarationModel) {
        texts_are_ranked(first.source.value, second.source.value, third.source.value);
    }

    fn comes_before(&self, other: &Self) -> (answer: bool) {
        is_before(self.source.value.as_str(), other.source.value.as_str())
    }
}

impl Ordered for SchemaDeclaration {
    open spec fn before(left: SchemaDeclarationModel, right: SchemaDeclarationModel) -> bool {
        precedes(left.name.value, right.name.value)
    }

    proof fn before_is_asymmetric(left: SchemaDeclarationModel, right: SchemaDeclarationModel) {
        texts_are_asymmetric(left.name.value, right.name.value);
    }

    proof fn before_is_ranked(first: SchemaDeclarationModel, second: SchemaDeclarationModel, third: SchemaDeclarationModel) {
        texts_are_ranked(first.name.value, second.name.value, third.name.value);
    }

    fn comes_before(&self, other: &Self) -> (answer: bool) {
        is_before(self.name.value.as_str(), other.name.value.as_str())
    }
}

impl Ordered for NodeDeclaration {
    open spec fn before(left: NodeDeclarationModel, right: NodeDeclarationModel) -> bool {
        precedes(left.name.value, right.name.value)
    }

    proof fn before_is_asymmetric(left: NodeDeclarationModel, right: NodeDeclarationModel) {
        texts_are_asymmetric(left.name.value, right.name.value);
    }

    proof fn before_is_ranked(first: NodeDeclarationModel, second: NodeDeclarationModel, third: NodeDeclarationModel) {
        texts_are_ranked(first.name.value, second.name.value, third.name.value);
    }

    fn comes_before(&self, other: &Self) -> (answer: bool) {
        is_before(self.name.value.as_str(), other.name.value.as_str())
    }
}

impl Ordered for Spanned<String> {
    open spec fn before(left: Spanned<Seq<char>>, right: Spanned<Seq<char>>) -> bool {
        precedes(left.value, right.value)
    }

    proof fn before_is_asymmetric(left: Spanned<Seq<char>>, right: Spanned<Seq<char>>) {
        texts_are_asymmetric(left.value, right.value);
    }

    proof fn before_is_ranked(first: Spanned<Seq<char>>, second: Spanned<Seq<char>>, third: Spanned<Seq<char>>) {
        texts_are_ranked(first.value, second.value, third.value);
    }

    fn comes_before(&self, other: &Self) -> (answer: bool) {
        is_before(self.value.as_str(), other.value.as_str())
    }
}

/// The index of the first property with a key, from `at` on.
pub open spec fn find_property(properties: Seq<PropertyModel>, key: Seq<char>, at: int) -> Option<
    int,
>
    decreases properties.len() - at,
{
    if at < 0 || at >= properties.len() {
        None
    } else if properties[at].key.value == key {
        Some(at)
    } else {
        find_property(properties, key, at + 1)
    }
}

/// The identifier a record states, used only to break an ordering tie.
pub open spec fn stated_id(record: RecordBodyModel) -> Seq<char> {
    match find_property(record.properties, "id"@, 0) {
        Some(at) => match record.properties[at].value.value {
            ValueModel::String(text) => text,
            _ => Seq::empty(),
        },
        None => Seq::empty(),
    }
}

/// What an edge is ordered by.
pub open spec fn edge_key(edge: EdgeDeclarationModel) -> Seq<Seq<char>> {
    seq![
        endpoint_text(edge.source),
        endpoint_text(edge.target),
        edge.relation.value,
        stated_id(edge.record),
    ]
}

impl Ordered for EdgeDeclaration {
    open spec fn before(left: EdgeDeclarationModel, right: EdgeDeclarationModel) -> bool {
        keys_before(edge_key(left), edge_key(right), 0)
    }

    proof fn before_is_asymmetric(left: EdgeDeclarationModel, right: EdgeDeclarationModel) {
        keys_are_asymmetric(edge_key(left), edge_key(right), 0);
    }

    proof fn before_is_ranked(
        first: EdgeDeclarationModel,
        second: EdgeDeclarationModel,
        third: EdgeDeclarationModel,
    ) {
        keys_are_ranked(edge_key(first), edge_key(second), edge_key(third), 0);
    }

    fn comes_before(&self, other: &Self) -> (answer: bool) {
        let left = key_of_edge(self);
        let right = key_of_edge(other);
        key_is_before(&left, &right)
    }
}

/// The rank of a kind of owner.
pub open spec fn rank(kind: OwnerKind) -> Seq<char> {
    match kind {
        OwnerKind::Analyzer => seq!['0'],
        OwnerKind::AiAnalysis => seq!['1'],
        OwnerKind::User => seq!['2'],
    }
}

/// What an owner is ordered by: its kind, and what it is called.
pub open spec fn owner_key(owner: OwnerDeclarationModel) -> (Seq<char>, Seq<char>, Seq<char>) {
    match owner {
        OwnerDeclarationModel::Analyzer { name, version } => (
            rank(owner.kind()),
            name.value,
            version.value,
        ),
        OwnerDeclarationModel::Ai { contract_digest } => (
            rank(owner.kind()),
            contract_digest.value,
            Seq::empty(),
        ),
        OwnerDeclarationModel::User { .. } => (rank(owner.kind()), Seq::empty(), Seq::empty()),
        OwnerDeclarationModel::Named { name } => (rank(owner.kind()), name.value, Seq::empty()),
    }
}

/// The source unit a contribution states, or nothing.
pub open spec fn unit_text(unit: Option<Spanned<Seq<char>>>) -> Seq<char> {
    match unit {
        Some(text) => text.value,
        None => Seq::empty(),
    }
}

/// What a contribution is ordered by.
pub open spec fn contribution_key(block: ContributionBlockModel) -> Seq<Seq<char>> {
    let (kind, first, second) = owner_key(block.owner);
    seq![kind, first, second, unit_text(block.unit)]
}

impl Ordered for ContributionBlock {
    open spec fn before(left: ContributionBlockModel, right: ContributionBlockModel) -> bool {
        keys_before(contribution_key(left), contribution_key(right), 0)
    }

    proof fn before_is_asymmetric(left: ContributionBlockModel, right: ContributionBlockModel) {
        keys_are_asymmetric(contribution_key(left), contribution_key(right), 0);
    }

    proof fn before_is_ranked(
        first: ContributionBlockModel,
        second: ContributionBlockModel,
        third: ContributionBlockModel,
    ) {
        keys_are_ranked(contribution_key(first), contribution_key(second), contribution_key(third), 0);
    }

    fn comes_before(&self, other: &Self) -> (answer: bool) {
        let left = key_of_contribution(self);
        let right = key_of_contribution(other);
        key_is_before(&left, &right)
    }
}

// -- Blocks ------------------------------------------------------------------------

/// The line that opens a block, or the whole block where it is empty.
pub open spec fn head_line(
    depth: nat,
    head: Seq<char>,
    comments: CommentsModel,
    empty: bool,
) -> Seq<char> {
    if empty {
        line(depth, with_trailing(head + " {}"@, comments))
    } else {
        line(depth, with_trailing(head + " {"@, comments))
    }
}

/// A block, which is written as two braces where nothing stands in it.
pub open spec fn block_text(
    depth: nat,
    head: Seq<char>,
    comments: CommentsModel,
    empty: bool,
    body: Seq<char>,
) -> Seq<char> {
    if empty {
        head_line(depth, head, comments, true)
    } else {
        head_line(depth, head, comments, false) + body + line(depth, "}"@)
    }
}

/// The comma between two entries.
pub open spec fn separator(last: bool) -> Seq<char> {
    if last {
        Seq::empty()
    } else {
        ","@
    }
}

/// Whether every item of a list is a string.
pub open spec fn all_strings(items: Seq<Spanned<ValueModel>>) -> bool {
    forall|i: int| 0 <= i < items.len() ==> (#[trigger] items[i]).value is String
}

/// The strings of a list.
pub open spec fn strings_of(items: Seq<Spanned<ValueModel>>) -> Seq<Spanned<Seq<char>>> {
    items.map_values(
        |item: Spanned<ValueModel>|
            Spanned { value: item.value->String_0, range: item.range },
    )
}

/// Strings as the items of a list.
pub open spec fn string_items(strings: Seq<Spanned<Seq<char>>>) -> Seq<Spanned<ValueModel>> {
    strings.map_values(
        |text: Spanned<Seq<char>>|
            Spanned { value: ValueModel::String(text.value), range: text.range },
    )
}

/// The value of a property as it is written: the labels that the reserved key `labels` lists
/// are in order, and any other value is as it stands.
pub open spec fn shown_value(property: PropertyModel) -> ValueModel {
    match property.value.value {
        ValueModel::List(items) => if property.key.value == "labels"@ && all_strings(items) {
            ValueModel::List(string_items(sorted::<Spanned<String>>(strings_of(items))))
        } else {
            property.value.value
        },
        _ => property.value.value,
    }
}

/// One property with its comments.
pub open spec fn property_text(depth: nat, property: PropertyModel, last: bool) -> Seq<char> {
    own_lines(depth, property.comments.leading) + line(
        depth,
        with_trailing(
            property.key.value + ": "@ + value_text(shown_value(property)) + separator(last),
            property.comments,
        ),
    )
}

/// The first `count` properties.
pub open spec fn properties_text(depth: nat, items: Seq<PropertyModel>, count: int) -> Seq<char>
    decreases count,
{
    if count <= 0 {
        Seq::empty()
    } else {
        properties_text(depth, items, count - 1) + property_text(
            depth,
            items[count - 1],
            count == items.len(),
        )
    }
}

/// One evidence field with its comments.
pub open spec fn evidence_field_text(depth: nat, field: EvidenceFieldModel, last: bool) -> Seq<
    char,
> {
    own_lines(depth, field.comments.leading) + line(
        depth,
        with_trailing(
            field.key.value + ": "@ + evidence_value_text(field.value.value) + separator(last),
            field.comments,
        ),
    )
}

/// The first `count` evidence fields.
pub open spec fn evidence_fields_text(
    depth: nat,
    items: Seq<EvidenceFieldModel>,
    count: int,
) -> Seq<char>
    decreases count,
{
    if count <= 0 {
        Seq::empty()
    } else {
        evidence_fields_text(depth, items, count - 1) + evidence_field_text(
            depth,
            items[count - 1],
            count == items.len(),
        )
    }
}

/// Whether an evidence block is written as two braces. A comment behind its brace keeps the
/// block open, so that it still stands there when the block is read.
pub open spec fn evidence_is_empty(block: EvidenceBlockModel) -> bool {
    block.fields.len() == 0 && block.block_comments.len() == 0
}

/// An evidence block.
pub open spec fn evidence_text(depth: nat, block: EvidenceBlockModel) -> Seq<char> {
    let fields = sorted::<EvidenceField>(block.fields);
    own_lines(depth, block.comments.leading) + block_text(
        depth,
        "@evidence"@,
        block.comments,
        evidence_is_empty(block),
        evidence_fields_text((depth + 1) as nat, fields, fields.len() as int) + own_lines(
            (depth + 1) as nat,
            block.block_comments,
        ),
    )
}

/// The first `count` evidence blocks, with a blank line between two.
pub open spec fn evidence_blocks_text(
    depth: nat,
    items: Seq<EvidenceBlockModel>,
    count: int,
) -> Seq<char>
    decreases count,
{
    if count <= 0 {
        Seq::empty()
    } else {
        evidence_blocks_text(depth, items, count - 1) + (if count > 1 {
            "\n"@
        } else {
            Seq::empty()
        }) + evidence_text(depth, items[count - 1])
    }
}

/// The comments at the end of a block, behind a blank line where blocks come before them.
pub open spec fn closing_comments(
    depth: nat,
    comments: Seq<CommentModel>,
    blocks: bool,
) -> Seq<char> {
    if comments.len() == 0 {
        Seq::empty()
    } else {
        (if blocks {
            "\n"@
        } else {
            Seq::empty()
        }) + own_lines(depth, comments)
    }
}

/// The head of a contribution block.
pub open spec fn contribution_head(block: ContributionBlockModel) -> Seq<char> {
    "@by "@ + owner_text(block.owner) + (match block.unit {
        Some(unit) => " unit "@ + literal(unit.value),
        None => Seq::empty(),
    })
}

/// Whether a contribution block is written as two braces.
pub open spec fn contribution_is_empty(block: ContributionBlockModel) -> bool {
    block.evidence.len() == 0 && block.block_comments.len() == 0
}

/// A contribution block.
pub open spec fn contribution_text(depth: nat, block: ContributionBlockModel) -> Seq<char> {
    own_lines(depth, block.comments.leading) + block_text(
        depth,
        contribution_head(block),
        block.comments,
        contribution_is_empty(block),
        evidence_blocks_text((depth + 1) as nat, block.evidence, block.evidence.len() as int)
            + closing_comments((depth + 1) as nat, block.block_comments, block.evidence.len() > 0),
    )
}

/// The first `count` contribution blocks, each behind a blank line.
pub open spec fn contributions_text(
    depth: nat,
    items: Seq<ContributionBlockModel>,
    count: int,
) -> Seq<char>
    decreases count,
{
    if count <= 0 {
        Seq::empty()
    } else {
        contributions_text(depth, items, count - 1) + "\n"@ + contribution_text(
            depth,
            items[count - 1],
        )
    }
}

/// Whether a record block is written as two braces.
pub open spec fn record_is_empty(record: RecordBodyModel) -> bool {
    record.properties.len() == 0 && record.contributions.len() == 0 && record.block_comments.len()
        == 0
}

/// What stands in a record block.
pub open spec fn record_inside(record: RecordBodyModel) -> Seq<char> {
    let properties = sorted::<Property>(record.properties);
    let contributions = sorted::<ContributionBlock>(record.contributions);
    properties_text(1, properties, properties.len() as int) + contributions_text(
        1,
        contributions,
        contributions.len() as int,
    ) + closing_comments(1, record.block_comments, record.contributions.len() > 0)
}

/// A record block.
pub open spec fn record_text(head: Seq<char>, record: RecordBodyModel) -> Seq<char> {
    block_text(0, head, record.comments, record_is_empty(record), record_inside(record))
}

// -- Declarations ------------------------------------------------------------------

/// One schema field with its comments.
pub open spec fn schema_field_text(field: SchemaFieldModel, last: bool) -> Seq<char> {
    own_lines(1, field.comments.leading) + line(
        1,
        with_trailing(
            field.key.value + (if field.optional {
                "?"@
            } else {
                Seq::empty()
            }) + ": "@ + field.field_type.value.text() + separator(last),
            field.comments,
        ),
    )
}

/// The first `count` schema fields.
pub open spec fn schema_fields_text(items: Seq<SchemaFieldModel>, count: int) -> Seq<char>
    decreases count,
{
    if count <= 0 {
        Seq::empty()
    } else {
        schema_fields_text(items, count - 1) + schema_field_text(
            items[count - 1],
            count == items.len(),
        )
    }
}

/// The head of a schema.
pub open spec fn schema_head(schema: SchemaDeclarationModel) -> Seq<char> {
    "schema "@ + schema.name.value + (match schema.endpoints {
        Some(constraint) => " ("@ + constraint.source.value + " -> "@ + constraint.target.value
            + ")"@,
        None => Seq::empty(),
    })
}

/// Whether a schema is written with two braces.
pub open spec fn schema_is_empty(schema: SchemaDeclarationModel) -> bool {
    schema.fields.len() == 0 && schema.block_comments.len() == 0
}

/// A schema.
pub open spec fn schema_text(schema: SchemaDeclarationModel) -> Seq<char> {
    let fields = sorted::<SchemaField>(schema.fields);
    own_lines(0, schema.comments.leading) + block_text(
        0,
        schema_head(schema),
        schema.comments,
        schema_is_empty(schema),
        schema_fields_text(fields, fields.len() as int) + own_lines(1, schema.block_comments),
    )
}

/// The first `count` names, separated by commas.
pub open spec fn names_text(names: Seq<Spanned<Seq<char>>>, count: int) -> Seq<char>
    decreases count,
{
    if count <= 0 {
        Seq::empty()
    } else if count == 1 {
        names[0].value
    } else {
        names_text(names, count - 1) + ", "@ + names[count - 1].value
    }
}

/// The head of a node.
pub open spec fn node_head(node: NodeDeclarationModel) -> Seq<char> {
    let names = sorted::<Spanned<String>>(node.schemas);
    "node "@ + node.name.value + ": "@ + names_text(names, names.len() as int)
}

/// A node.
pub open spec fn node_text(node: NodeDeclarationModel) -> Seq<char> {
    own_lines(0, node.record.comments.leading) + record_text(node_head(node), node.record)
}

/// The head of an edge.
pub open spec fn edge_head(edge: EdgeDeclarationModel) -> Seq<char> {
    "edge "@ + endpoint_text(edge.source) + " -> "@ + endpoint_text(edge.target) + " :"@
        + edge.relation.value
}

/// An edge.
pub open spec fn edge_text(edge: EdgeDeclarationModel) -> Seq<char> {
    own_lines(0, edge.record.comments.leading) + record_text(edge_head(edge), edge.record)
}

/// A link.
pub open spec fn link_text(link: LinkDeclarationModel) -> Seq<char> {
    own_lines(0, link.comments.leading) + line(
        0,
        with_trailing(
            "@link "@ + literal(link.source.value) + (match link.alias {
                Some(alias) => " as "@ + alias.value,
                None => Seq::empty(),
            }),
            link.comments,
        ),
    )
}

/// The first `count` links.
pub open spec fn links_text(items: Seq<LinkDeclarationModel>, count: int) -> Seq<char>
    decreases count,
{
    if count <= 0 {
        Seq::empty()
    } else {
        links_text(items, count - 1) + link_text(items[count - 1])
    }
}

/// The first `count` schemas, each behind a blank line.
pub open spec fn schemas_text(items: Seq<SchemaDeclarationModel>, count: int) -> Seq<char>
    decreases count,
{
    if count <= 0 {
        Seq::empty()
    } else {
        schemas_text(items, count - 1) + "\n"@ + schema_text(items[count - 1])
    }
}

/// The first `count` nodes, each behind a blank line.
pub open spec fn nodes_text(items: Seq<NodeDeclarationModel>, count: int) -> Seq<char>
    decreases count,
{
    if count <= 0 {
        Seq::empty()
    } else {
        nodes_text(items, count - 1) + "\n"@ + node_text(items[count - 1])
    }
}

/// The first `count` edges, each behind a blank line.
pub open spec fn edges_text(items: Seq<EdgeDeclarationModel>, count: int) -> Seq<char>
    decreases count,
{
    if count <= 0 {
        Seq::empty()
    } else {
        edges_text(items, count - 1) + "\n"@ + edge_text(items[count - 1])
    }
}

/// The version header.
pub open spec fn header_text(file: SourceFileModel) -> Seq<char> {
    own_lines(0, file.version_comments.leading) + line(
        0,
        with_trailing("@nost "@ + digits_of(file.version.value as nat), file.version_comments),
    )
}

/// The group of links, behind a blank line where there are any.
pub open spec fn link_group(file: SourceFileModel) -> Seq<char> {
    let links = sorted::<LinkDeclaration>(file.links);
    if file.links.len() == 0 {
        Seq::empty()
    } else {
        "\n"@ + links_text(links, links.len() as int)
    }
}

/// A file in canonical form.
pub open spec fn formatted(file: SourceFileModel) -> Seq<char> {
    let schemas = sorted::<SchemaDeclaration>(file.schemas);
    let nodes = sorted::<NodeDeclaration>(file.nodes);
    let edges = sorted::<EdgeDeclaration>(file.edges);
    header_text(file) + link_group(file) + schemas_text(schemas, schemas.len() as int) + nodes_text(
        nodes,
        nodes.len() as int,
    ) + edges_text(edges, edges.len() as int) + closing_comments(0, file.trailing_comments, true)
}

// -- Writing -----------------------------------------------------------------------

fn write_indent(out: &mut String, depth: usize)
    ensures
        final(out)@ == old(out)@ + indent(depth as nat),
{
    let ghost before = out@;
    let mut at: usize = 0;
    assert(before + indent(0) =~= before);
    while at < depth
        invariant
            at <= depth,
            out@ == before + indent(at as nat),
        decreases depth - at,
    {
        out.append("  ");
        at = at + 1;
        assert(out@ =~= before + indent(at as nat));
    }
}

fn write_comment(out: &mut String, comment: &Comment)
    ensures
        final(out)@ == old(out)@ + comment_text(comment@),
{
    let ghost before = out@;
    if comment.block {
        out.append("/*");
        out.append(comment.text.as_str());
        out.append("*/");
    } else if comment.text.as_str().is_empty() {
        out.append("//");
    } else {
        out.append("// ");
        out.append(comment.text.as_str());
    }
    assert(out@ =~= before + comment_text(comment@));
}

fn write_own_lines(out: &mut String, depth: usize, comments: &Vec<Comment>)
    ensures
        final(out)@ == old(out)@ + own_lines(depth as nat, views(comments@)),
{
    let ghost before = out@;
    let ghost models = views(comments@);
    let mut at: usize = 0;
    assert(before + comment_lines(depth as nat, models, 0) =~= before);
    while at < comments.len()
        invariant
            at <= comments@.len(),
            models == views(comments@),
            out@ == before + comment_lines(depth as nat, models, at as int),
        decreases comments@.len() - at,
    {
        write_indent(out, depth);
        write_comment(out, &comments[at]);
        out.append("\n");
        at = at + 1;
        assert(out@ =~= before + comment_lines(depth as nat, models, at as int));
    }
}

fn write_upper_hex(out: &mut String, number: u32)
    ensures
        final(out)@ == old(out)@ + upper_hex(number as nat),
    decreases number,
{
    let ghost before = out@;
    if number >= 16 {
        write_upper_hex(out, number / 16);
    }
    let digit: u8 = (number % 16) as u8;
    if digit < 10 {
        out.push((48u8 + digit) as char);
    } else {
        out.push((55u8 + digit) as char);
    }
    assert(out@ =~= before + upper_hex(number as nat));
}

fn write_escaped(out: &mut String, c: char)
    ensures
        final(out)@ == old(out)@ + escaped_char(c),
{
    let ghost before = out@;
    if c == '"' || c == '\\' {
        out.push('\\');
        out.push(c);
        assert(out@ =~= before + seq!['\\', c]);
    } else if c == '\n' {
        out.push('\\');
        out.push('n');
        assert(out@ =~= before + seq!['\\', 'n']);
    } else if c == '\r' {
        out.push('\\');
        out.push('r');
        assert(out@ =~= before + seq!['\\', 'r']);
    } else if c == '\t' {
        out.push('\\');
        out.push('t');
        assert(out@ =~= before + seq!['\\', 't']);
    } else if is_control(c) {
        let code: u32 = c as u32;
        assert(code as nat == c as nat);
        out.push('\\');
        out.push('u');
        out.push('{');
        write_upper_hex(out, code);
        out.push('}');
        assert(out@ =~= before + (seq!['\\', 'u', '{'] + upper_hex(c as nat) + seq!['}']));
    } else {
        out.push(c);
        assert(out@ =~= before + seq![c]);
    }
}

fn write_literal(out: &mut String, text: &str)
    ensures
        final(out)@ == old(out)@ + literal(text@),
{
    let ghost before = out@;
    let all = characters(text);
    out.push('"');
    let mut at: usize = 0;
    assert(out@ =~= before + seq!['"'] + escaped_part(text@, 0));
    while at < all.len()
        invariant
            at <= all@.len(),
            all@ == text@,
            out@ == before + seq!['"'] + escaped_part(text@, at as int),
        decreases all@.len() - at,
    {
        let c: char = all[at];
        write_escaped(out, c);
        at = at + 1;
        assert(out@ =~= before + seq!['"'] + escaped_part(text@, at as int));
    }
    out.push('"');
    assert(out@ =~= before + literal(text@));
}

fn write_integer(out: &mut String, text: &str)
    ensures
        final(out)@ == old(out)@ + integer_text(text@),
{
    match parse_signed(text) {
        Some(number) => {
            out.append(show_signed(number).as_str());
        }
        None => {
            out.append(text);
        }
    }
}

fn write_float(out: &mut String, text: &str)
    ensures
        final(out)@ == old(out)@ + float_text(text@),
{
    match parse_double(text) {
        Some(bits) => {
            if is_finite(bits) {
                out.append(show_double(bits).as_str());
            } else {
                out.append(text);
            }
        }
        None => {
            out.append(text);
        }
    }
}

fn write_lowered(out: &mut String, text: &str)
    ensures
        final(out)@ == old(out)@ + lowered(text@),
{
    let ghost before = out@;
    let all = characters(text);
    let mut at: usize = 0;
    assert(before + lowered(text@).take(0) =~= before);
    while at < all.len()
        invariant
            at <= all@.len(),
            all@ == text@,
            out@ == before + lowered(text@).take(at as int),
        decreases all@.len() - at,
    {
        out.push(lower_char(all[at]));
        at = at + 1;
        assert(out@ =~= before + lowered(text@).take(at as int));
    }
    assert(lowered(text@).take(text@.len() as int) =~= lowered(text@));
}

fn write_items(out: &mut String, items: &Vec<Spanned<Value>>)
    ensures
        final(out)@ == old(out)@ + items_text(views(items@), items@.len()),
    decreases items, 0nat,
{
    let ghost before = out@;
    let ghost models = views(items@);
    let mut at: usize = 0;
    assert(before + items_text(models, 0) =~= before);
    while at < items.len()
        invariant
            at <= items@.len(),
            models == views(items@),
            out@ == before + items_text(models, at as nat),
        decreases items@.len() - at,
    {
        let ghost so_far = out@;
        if at > 0 {
            out.append(", ");
        }
        assert(decreases_to!(items => items@[at as int].value));
        write_value(out, &items[at].value);
        at = at + 1;
        assert(out@ =~= before + items_text(models, at as nat));
    }
}

fn write_value(out: &mut String, value: &Value)
    ensures
        final(out)@ == old(out)@ + value_text(value@),
    decreases value, 1nat,
{
    let ghost before = out@;
    match value {
        Value::Boolean(flag) => {
            if *flag {
                out.append("true");
            } else {
                out.append("false");
            }
        }
        Value::Integer(text) => {
            write_integer(out, text.as_str());
        }
        Value::Float(text) => {
            write_float(out, text.as_str());
        }
        Value::String(text) => {
            write_literal(out, text.as_str());
        }
        Value::Bytes { digits, .. } => {
            out.append("bytes\"");
            write_lowered(out, digits.as_str());
            out.append("\"");
        }
        Value::DateTime(text) => {
            out.append("datetime");
            write_literal(out, text.as_str());
        }
        Value::List(items) => {
            proof {
                list_model(items@);
            }
            out.append("[");
            write_items(out, items);
            out.append("]");
        }
    }
    assert(out@ =~= before + value_text(value@));
}

fn write_endpoint(out: &mut String, endpoint: &Endpoint)
    ensures
        final(out)@ == old(out)@ + endpoint_text(endpoint@),
{
    let ghost before = out@;
    match endpoint {
        Endpoint::Local(name) => {
            out.append(name.value.as_str());
        }
        Endpoint::Aliased { alias, name } => {
            out.append(alias.value.as_str());
            out.append("::");
            out.append(name.value.as_str());
        }
        Endpoint::Locator { locator, name } => {
            write_literal(out, locator.value.as_str());
            out.append("::");
            out.append(name.value.as_str());
        }
    }
    assert(out@ =~= before + endpoint_text(endpoint@));
}

fn write_owner(out: &mut String, owner: &OwnerDeclaration)
    ensures
        final(out)@ == old(out)@ + owner_text(owner@),
{
    let ghost before = out@;
    match owner {
        OwnerDeclaration::Analyzer { name, version } => {
            out.append("analyzer ");
            write_literal(out, name.value.as_str());
            out.append(" ");
            write_literal(out, version.value.as_str());
        }
        OwnerDeclaration::Ai { contract_digest } => {
            out.append("ai ");
            write_literal(out, contract_digest.value.as_str());
        }
        OwnerDeclaration::User { .. } => {
            out.append("user");
        }
        OwnerDeclaration::Named { name } => {
            write_literal(out, name.value.as_str());
        }
    }
    assert(out@ =~= before + owner_text(owner@));
}

fn write_evidence_value(out: &mut String, value: &EvidenceValue)
    ensures
        final(out)@ == old(out)@ + evidence_value_text(value@),
{
    let ghost before = out@;
    match value {
        EvidenceValue::Text(text) => {
            write_literal(out, text.as_str());
        }
        EvidenceValue::Enumerator { name, score } => {
            out.append(name.as_str());
            match score {
                Some(number) => {
                    out.append("(");
                    write_float(out, number.as_str());
                    out.append(")");
                }
                None => {}
            }
        }
    }
    assert(out@ =~= before + evidence_value_text(value@));
}

// -- Keys --------------------------------------------------------------------------

fn key_is_before(left: &Vec<String>, right: &Vec<String>) -> (answer: bool)
    requires
        left@.len() == right@.len(),
    ensures
        answer == keys_before(views(left@), views(right@), 0),
{
    let ghost a = views(left@);
    let ghost b = views(right@);
    let mut at: usize = 0;
    while at < left.len()
        invariant
            at <= left@.len(),
            left@.len() == right@.len(),
            a == views(left@),
            b == views(right@),
            keys_before(a, b, 0) == keys_before(a, b, at as int),
        decreases left@.len() - at,
    {
        if is_before(left[at].as_str(), right[at].as_str()) {
            return true;
        }
        if !same(left[at].as_str(), right[at].as_str()) {
            return false;
        }
        at = at + 1;
    }
    false
}

fn key_of_edge(edge: &EdgeDeclaration) -> (key: Vec<String>)
    ensures
        key@.len() == 4,
        views(key@) == edge_key(edge@),
{
    let mut source = String::new();
    write_endpoint(&mut source, &edge.source);
    let mut target = String::new();
    write_endpoint(&mut target, &edge.target);
    assert(source@ =~= endpoint_text(edge@.source));
    assert(target@ =~= endpoint_text(edge@.target));
    let mut key: Vec<String> = Vec::new();
    key.push(source);
    key.push(target);
    key.push(edge.relation.value.clone());
    key.push(id_stated(&edge.record));
    assert(views(key@) =~= edge_key(edge@));
    key
}

fn id_stated(record: &RecordBody) -> (text: String)
    ensures
        text@ == stated_id(record@),
{
    let ghost models = record@.properties;
    let mut at: usize = 0;
    while at < record.properties.len()
        invariant
            at <= record.properties@.len(),
            models == record@.properties,
            find_property(models, "id"@, 0) == find_property(models, "id"@, at as int),
        decreases record.properties@.len() - at,
    {
        let property = &record.properties[at];
        assert(models[at as int] == property@);
        if same(property.key.value.as_str(), "id") {
            return match &property.value.value {
                Value::String(text) => text.clone(),
                _ => String::new(),
            };
        }
        at = at + 1;
    }
    String::new()
}

pub(crate) fn rank_text(kind: OwnerKind) -> (text: String)
    ensures
        text@ == rank(kind),
{
    let mut text = String::new();
    match kind {
        OwnerKind::Analyzer => {
            text.push('0');
        }
        OwnerKind::AiAnalysis => {
            text.push('1');
        }
        OwnerKind::User => {
            text.push('2');
        }
    }
    assert(text@ =~= rank(kind));
    text
}

fn key_of_contribution(block: &ContributionBlock) -> (key: Vec<String>)
    ensures
        key@.len() == 4,
        views(key@) == contribution_key(block@),
{
    let mut key: Vec<String> = Vec::new();
    key.push(rank_text(block.owner.kind()));
    match &block.owner {
        OwnerDeclaration::Analyzer { name, version } => {
            key.push(name.value.clone());
            key.push(version.value.clone());
        }
        OwnerDeclaration::Ai { contract_digest } => {
            key.push(contract_digest.value.clone());
            key.push(String::new());
        }
        OwnerDeclaration::User { .. } => {
            key.push(String::new());
            key.push(String::new());
        }
        OwnerDeclaration::Named { name } => {
            key.push(name.value.clone());
            key.push(String::new());
        }
    }
    match &block.unit {
        Some(unit) => {
            key.push(unit.value.clone());
        }
        None => {
            key.push(String::new());
        }
    }
    assert(views(key@) =~= contribution_key(block@));
    key
}

// -- Blocks and declarations -------------------------------------------------------

/// A line with the comments before and behind it.
fn entry_of(depth: usize, text: &str, comments: &Comments) -> (whole: String)
    ensures
        whole@ == own_lines(depth as nat, comments@.leading) + line(
            depth as nat,
            with_trailing(text@, comments@),
        ),
{
    let mut whole = String::new();
    write_own_lines(&mut whole, depth, &comments.leading);
    assert(whole@ =~= own_lines(depth as nat, comments@.leading));
    let last = line_of(depth, text, comments);
    whole.append(last.as_str());
    whole
}

/// A line with the comment behind it.
fn line_of(depth: usize, text: &str, comments: &Comments) -> (whole: String)
    ensures
        whole@ == line(depth as nat, with_trailing(text@, comments@)),
{
    let mut whole = String::new();
    write_indent(&mut whole, depth);
    assert(whole@ =~= indent(depth as nat));
    whole.append(text);
    match &comments.trailing {
        Some(comment) => {
            whole.append(" ");
            write_comment(&mut whole, comment);
        }
        None => {}
    }
    assert(whole@ =~= indent(depth as nat) + with_trailing(text@, comments@));
    whole.append("\n");
    whole
}

/// A block with its head and its body.
fn block_of(depth: usize, head: &str, comments: &Comments, empty: bool, body: &str) -> (whole: String)
    ensures
        whole@ == block_text(depth as nat, head@, comments@, empty, body@),
{
    if empty {
        let mut text = head.to_owned();
        text.append(" {}");
        return line_of(depth, text.as_str(), comments);
    }
    let mut text = head.to_owned();
    text.append(" {");
    let mut whole = line_of(depth, text.as_str(), comments);
    whole.append(body);
    let mut close = String::new();
    write_indent(&mut close, depth);
    assert(close@ =~= indent(depth as nat));
    close.append("}");
    close.append("\n");
    whole.append(close.as_str());
    whole
}

fn comments_at_end(depth: usize, comments: &Vec<Comment>, blocks: bool) -> (text: String)
    ensures
        text@ == closing_comments(depth as nat, views(comments@), blocks),
{
    let mut text = String::new();
    if comments.len() > 0 {
        if blocks {
            text.append("\n");
        }
        let ghost before = text@;
        write_own_lines(&mut text, depth, comments);
    }
    assert(text@ =~= closing_comments(depth as nat, views(comments@), blocks));
    text
}

fn comments_on_lines(depth: usize, comments: &Vec<Comment>) -> (text: String)
    ensures
        text@ == own_lines(depth as nat, views(comments@)),
{
    let mut text = String::new();
    write_own_lines(&mut text, depth, comments);
    assert(text@ =~= own_lines(depth as nat, views(comments@)));
    text
}

fn are_strings(items: &Vec<Spanned<Value>>) -> (answer: bool)
    ensures
        Value::List(*items)@ matches ValueModel::List(models) && answer == all_strings(models),
{
    let ghost models = Value::List(*items)@->List_0;
    proof {
        list_model(items@);
        assert(Value::List(*items)@ == ValueModel::List(models));
    }
    let mut at: usize = 0;
    while at < items.len()
        invariant
            at <= items@.len() == models.len(),
            Value::List(*items)@ == ValueModel::List(models),
            forall|i: int| 0 <= i < models.len() ==> #[trigger] models[i] == items@[i]@,
            forall|i: int| 0 <= i < at ==> (#[trigger] models[i]).value is String,
        decreases items@.len() - at,
    {
        assert(models[at as int] == items@[at as int]@);
        match &items[at].value {
            Value::String(_) => {}
            _ => {
                assert(!(models[at as int].value is String));
                return false;
            }
        }
        at = at + 1;
    }
    true
}

/// The labels of a list in order.
fn sorted_labels(items: &Vec<Spanned<Value>>) -> (labels: Value)
    requires
        Value::List(*items)@ matches ValueModel::List(models) && all_strings(models),
    ensures
        Value::List(*items)@ matches ValueModel::List(models) && labels@ == ValueModel::List(
            string_items(sorted::<Spanned<String>>(strings_of(models))),
        ),
{
    let ghost models = Value::List(*items)@->List_0;
    let ghost strings = strings_of(models);
    proof {
        list_model(items@);
    }
    let mut texts: Vec<Spanned<String>> = Vec::new();
    let mut at: usize = 0;
    while at < items.len()
        invariant
            at <= items@.len() == models.len(),
            strings == strings_of(models),
            all_strings(models),
            forall|i: int| 0 <= i < models.len() ==> #[trigger] models[i] == items@[i]@,
            views(texts@) =~= strings.take(at as int),
        decreases items@.len() - at,
    {
        assert(models[at as int] == items@[at as int]@);
        assert(models[at as int].value is String);
        match &items[at].value {
            Value::String(text) => {
                let one = Spanned { value: text.clone(), range: items[at].range };
                proof {
                    views_push(texts@, one);
                }
                texts.push(one);
            }
            _ => {}
        }
        at = at + 1;
    }
    assert(strings.take(strings.len() as int) =~= strings);
    let texts = sort(texts);
    let mut labels: Vec<Spanned<Value>> = Vec::new();
    let mut at: usize = 0;
    while at < texts.len()
        invariant
            at <= texts@.len(),
            labels@.len() == at,
            forall|i: int|
                0 <= i < at ==> (#[trigger] labels@[i])@ == (Spanned {
                    value: ValueModel::String(texts@[i]@.value),
                    range: texts@[i]@.range,
                }),
        decreases texts@.len() - at,
    {
        labels.push(
            Spanned { value: Value::String(texts[at].value.clone()), range: texts[at].range },
        );
        at = at + 1;
    }
    proof {
        list_model(labels@);
        assert(Value::List(labels)@->List_0 =~= string_items(views(texts@)));
    }
    Value::List(labels)
}

fn property_of(depth: usize, property: &Property, last: bool) -> (whole: String)
    ensures
        whole@ == property_text(depth as nat, property@, last),
{
    let mut text = property.key.value.clone();
    text.append(": ");
    match &property.value.value {
        Value::List(items) if same(property.key.value.as_str(), "labels") && are_strings(items) => {
            let labels = sorted_labels(items);
            write_value(&mut text, &labels);
        }
        value => {
            write_value(&mut text, value);
        }
    }
    if !last {
        text.append(",");
    }
    assert(text@ =~= property@.key.value + ": "@ + value_text(shown_value(property@)) + separator(
        last,
    ));
    entry_of(depth, text.as_str(), &property.comments)
}

fn evidence_field_of(depth: usize, field: &EvidenceField, last: bool) -> (whole: String)
    ensures
        whole@ == evidence_field_text(depth as nat, field@, last),
{
    let mut text = field.key.value.clone();
    text.append(": ");
    write_evidence_value(&mut text, &field.value.value);
    if !last {
        text.append(",");
    }
    assert(text@ =~= field@.key.value + ": "@ + evidence_value_text(field@.value.value) + separator(
        last,
    ));
    entry_of(depth, text.as_str(), &field.comments)
}

fn evidence_fields_of(depth: usize, items: &Vec<EvidenceField>) -> (text: String)
    ensures
        text@ == evidence_fields_text(
            depth as nat,
            sorted::<EvidenceField>(views(items@)),
            sorted::<EvidenceField>(views(items@)).len() as int,
        ),
{
    let fields = in_sequence(items);
    let ghost models = sorted::<EvidenceField>(views(items@));
    let mut text = String::new();
    let mut at: usize = 0;
    assert(text@ =~= evidence_fields_text(depth as nat, models, 0));
    while at < fields.len()
        invariant
            at <= fields@.len(),
            models == crate::order::shown(fields@),
            text@ == evidence_fields_text(depth as nat, models, at as int),
        decreases fields@.len() - at,
    {
        assert(models[at as int] == fields@[at as int]@);
        let whole = evidence_field_of(depth, fields[at], at + 1 == fields.len());
        text.append(whole.as_str());
        at = at + 1;
    }
    text
}

fn evidence_of(depth: usize, block: &EvidenceBlock) -> (whole: String)
    requires
        depth < 100,
    ensures
        whole@ == evidence_text(depth as nat, block@),
{
    let mut whole = comments_on_lines(depth, &block.comments.leading);
    let empty = block.fields.len() == 0 && block.block_comments.len() == 0;
    let mut body = evidence_fields_of(depth + 1, &block.fields);
    body.append(comments_on_lines(depth + 1, &block.block_comments).as_str());
    whole.append(block_of(depth, "@evidence", &block.comments, empty, body.as_str()).as_str());
    whole
}

fn evidence_blocks_of(depth: usize, blocks: &Vec<EvidenceBlock>) -> (text: String)
    requires
        depth < 100,
    ensures
        text@ == evidence_blocks_text(depth as nat, views(blocks@), blocks@.len() as int),
{
    let ghost models = views(blocks@);
    let mut text = String::new();
    let mut at: usize = 0;
    assert(text@ =~= evidence_blocks_text(depth as nat, models, 0));
    while at < blocks.len()
        invariant
            at <= blocks@.len(),
            depth < 100,
            models == views(blocks@),
            text@ == evidence_blocks_text(depth as nat, models, at as int),
        decreases blocks@.len() - at,
    {
        assert(models[at as int] == blocks@[at as int]@);
        let ghost before = text@;
        if at > 0 {
            text.append("\n");
        }
        assert(text@ =~= before + (if at > 0 {
            "\n"@
        } else {
            Seq::empty()
        }));
        text.append(evidence_of(depth, &blocks[at]).as_str());
        at = at + 1;
    }
    text
}

fn head_of_contribution(block: &ContributionBlock) -> (head: String)
    ensures
        head@ == contribution_head(block@),
{
    let mut head = "@by ".to_owned();
    write_owner(&mut head, &block.owner);
    let ghost before = head@;
    match &block.unit {
        Some(unit) => {
            head.append(" unit ");
            write_literal(&mut head, unit.value.as_str());
            assert(head@ =~= before + (" unit "@ + literal(unit@.value)));
        }
        None => {
            assert(head@ =~= before + Seq::empty());
        }
    }
    head
}

fn contribution_of(depth: usize, block: &ContributionBlock) -> (whole: String)
    requires
        depth < 50,
    ensures
        whole@ == contribution_text(depth as nat, block@),
{
    let mut whole = comments_on_lines(depth, &block.comments.leading);
    let head = head_of_contribution(block);
    let empty = block.evidence.len() == 0 && block.block_comments.len() == 0;
    let mut body = evidence_blocks_of(depth + 1, &block.evidence);
    body.append(
        comments_at_end(depth + 1, &block.block_comments, block.evidence.len() > 0).as_str(),
    );
    whole.append(block_of(depth, head.as_str(), &block.comments, empty, body.as_str()).as_str());
    whole
}

fn properties_of(items: &Vec<Property>) -> (text: String)
    ensures
        text@ == properties_text(
            1,
            sorted::<Property>(views(items@)),
            sorted::<Property>(views(items@)).len() as int,
        ),
{
    let properties = in_sequence(items);
    let ghost models = sorted::<Property>(views(items@));
    let mut text = String::new();
    let mut at: usize = 0;
    assert(text@ =~= properties_text(1, models, 0));
    while at < properties.len()
        invariant
            at <= properties@.len(),
            models == crate::order::shown(properties@),
            text@ == properties_text(1, models, at as int),
        decreases properties@.len() - at,
    {
        assert(models[at as int] == properties@[at as int]@);
        let whole = property_of(1, properties[at], at + 1 == properties.len());
        text.append(whole.as_str());
        at = at + 1;
    }
    text
}

fn contributions_of(items: &Vec<ContributionBlock>) -> (text: String)
    ensures
        text@ == contributions_text(
            1,
            sorted::<ContributionBlock>(views(items@)),
            sorted::<ContributionBlock>(views(items@)).len() as int,
        ),
{
    let blocks = in_sequence(items);
    let ghost models = sorted::<ContributionBlock>(views(items@));
    let mut text = String::new();
    let mut at: usize = 0;
    assert(text@ =~= contributions_text(1, models, 0));
    while at < blocks.len()
        invariant
            at <= blocks@.len(),
            models == crate::order::shown(blocks@),
            text@ == contributions_text(1, models, at as int),
        decreases blocks@.len() - at,
    {
        assert(models[at as int] == blocks@[at as int]@);
        text.append("\n");
        text.append(contribution_of(1, blocks[at]).as_str());
        at = at + 1;
    }
    text
}

fn record_of(head: &str, record: &RecordBody) -> (whole: String)
    ensures
        whole@ == record_text(head@, record@),
{
    let empty = record.properties.len() == 0 && record.contributions.len() == 0
        && record.block_comments.len() == 0;
    let mut body = properties_of(&record.properties);
    body.append(contributions_of(&record.contributions).as_str());
    body.append(
        comments_at_end(1, &record.block_comments, record.contributions.len() > 0).as_str(),
    );
    block_of(0, head, &record.comments, empty, body.as_str())
}

fn schema_field_of(field: &SchemaField, last: bool) -> (whole: String)
    ensures
        whole@ == schema_field_text(field@, last),
{
    let mut text = field.key.value.clone();
    let ghost mark = if field.optional {
        "?"@
    } else {
        Seq::empty()
    };
    if field.optional {
        text.append("?");
    }
    assert(text@ =~= field@.key.value + mark);
    text.append(": ");
    text.append(field.field_type.value.to_string().as_str());
    let ghost before = text@;
    if !last {
        text.append(",");
    }
    assert(text@ =~= before + separator(last));
    entry_of(1, text.as_str(), &field.comments)
}

fn schema_fields_of(items: &Vec<SchemaField>) -> (text: String)
    ensures
        text@ == schema_fields_text(
            sorted::<SchemaField>(views(items@)),
            sorted::<SchemaField>(views(items@)).len() as int,
        ),
{
    let fields = in_sequence(items);
    let ghost models = sorted::<SchemaField>(views(items@));
    let mut text = String::new();
    let mut at: usize = 0;
    assert(text@ =~= schema_fields_text(models, 0));
    while at < fields.len()
        invariant
            at <= fields@.len(),
            models == crate::order::shown(fields@),
            text@ == schema_fields_text(models, at as int),
        decreases fields@.len() - at,
    {
        assert(models[at as int] == fields@[at as int]@);
        let whole = schema_field_of(fields[at], at + 1 == fields.len());
        text.append(whole.as_str());
        at = at + 1;
    }
    text
}

fn head_of_schema(schema: &SchemaDeclaration) -> (head: String)
    ensures
        head@ == schema_head(schema@),
{
    let mut head = "schema ".to_owned();
    head.append(schema.name.value.as_str());
    let ghost before = head@;
    match &schema.endpoints {
        Some(constraint) => {
            let mut part = " (".to_owned();
            part.append(constraint.source.value.as_str());
            part.append(" -> ");
            part.append(constraint.target.value.as_str());
            part.append(")");
            head.append(part.as_str());
        }
        None => {
            assert(head@ =~= before + Seq::empty());
        }
    }
    head
}

fn schema_of(schema: &SchemaDeclaration) -> (whole: String)
    ensures
        whole@ == schema_text(schema@),
{
    let mut whole = comments_on_lines(0, &schema.comments.leading);
    let head = head_of_schema(schema);
    let empty = schema.fields.len() == 0 && schema.block_comments.len() == 0;
    let mut body = schema_fields_of(&schema.fields);
    body.append(comments_on_lines(1, &schema.block_comments).as_str());
    whole.append(block_of(0, head.as_str(), &schema.comments, empty, body.as_str()).as_str());
    whole
}

fn names_of(items: &Vec<Spanned<String>>) -> (text: String)
    ensures
        text@ == names_text(
            sorted::<Spanned<String>>(views(items@)),
            sorted::<Spanned<String>>(views(items@)).len() as int,
        ),
{
    let names = in_sequence(items);
    let ghost models = sorted::<Spanned<String>>(views(items@));
    let mut text = String::new();
    let mut at: usize = 0;
    assert(text@ =~= names_text(models, 0));
    while at < names.len()
        invariant
            at <= names@.len(),
            models == crate::order::shown(names@),
            text@ == names_text(models, at as int),
        decreases names@.len() - at,
    {
        assert(models[at as int] == names@[at as int]@);
        if at > 0 {
            text.append(", ");
        }
        text.append(names[at].value.as_str());
        at = at + 1;
        assert(text@ =~= names_text(models, at as int));
    }
    text
}

fn node_of(node: &NodeDeclaration) -> (whole: String)
    ensures
        whole@ == node_text(node@),
{
    let mut whole = comments_on_lines(0, &node.record.comments.leading);
    let mut head = "node ".to_owned();
    head.append(node.name.value.as_str());
    head.append(": ");
    head.append(names_of(&node.schemas).as_str());
    whole.append(record_of(head.as_str(), &node.record).as_str());
    whole
}

fn edge_of(edge: &EdgeDeclaration) -> (whole: String)
    ensures
        whole@ == edge_text(edge@),
{
    let mut whole = comments_on_lines(0, &edge.record.comments.leading);
    let mut head = "edge ".to_owned();
    write_endpoint(&mut head, &edge.source);
    head.append(" -> ");
    write_endpoint(&mut head, &edge.target);
    head.append(" :");
    head.append(edge.relation.value.as_str());
    whole.append(record_of(head.as_str(), &edge.record).as_str());
    whole
}

fn link_of(link: &LinkDeclaration) -> (whole: String)
    ensures
        whole@ == link_text(link@),
{
    let mut text = "@link ".to_owned();
    write_literal(&mut text, link.source.value.as_str());
    let ghost before = text@;
    match &link.alias {
        Some(alias) => {
            let mut part = " as ".to_owned();
            part.append(alias.value.as_str());
            text.append(part.as_str());
        }
        None => {
            assert(text@ =~= before + Seq::empty());
        }
    }
    entry_of(0, text.as_str(), &link.comments)
}

fn links_of(items: &Vec<LinkDeclaration>) -> (text: String)
    ensures
        text@ == links_text(
            sorted::<LinkDeclaration>(views(items@)),
            sorted::<LinkDeclaration>(views(items@)).len() as int,
        ),
{
    let ordered = in_sequence(items);
    let ghost models = sorted::<LinkDeclaration>(views(items@));
    let mut text = String::new();
    let mut at: usize = 0;
    assert(text@ =~= links_text(models, 0));
    while at < ordered.len()
        invariant
            at <= ordered@.len(),
            models == crate::order::shown(ordered@),
            text@ == links_text(models, at as int),
        decreases ordered@.len() - at,
    {
        assert(models[at as int] == ordered@[at as int]@);
        text.append(link_of(ordered[at]).as_str());
        at = at + 1;
    }
    text
}

fn schemas_of(items: &Vec<SchemaDeclaration>) -> (text: String)
    ensures
        text@ == schemas_text(
            sorted::<SchemaDeclaration>(views(items@)),
            sorted::<SchemaDeclaration>(views(items@)).len() as int,
        ),
{
    let ordered = in_sequence(items);
    let ghost models = sorted::<SchemaDeclaration>(views(items@));
    let mut text = String::new();
    let mut at: usize = 0;
    assert(text@ =~= schemas_text(models, 0));
    while at < ordered.len()
        invariant
            at <= ordered@.len(),
            models == crate::order::shown(ordered@),
            text@ == schemas_text(models, at as int),
        decreases ordered@.len() - at,
    {
        assert(models[at as int] == ordered@[at as int]@);
        text.append("\n");
        text.append(schema_of(ordered[at]).as_str());
        at = at + 1;
    }
    text
}

fn nodes_of(items: &Vec<NodeDeclaration>) -> (text: String)
    ensures
        text@ == nodes_text(
            sorted::<NodeDeclaration>(views(items@)),
            sorted::<NodeDeclaration>(views(items@)).len() as int,
        ),
{
    let ordered = in_sequence(items);
    let ghost models = sorted::<NodeDeclaration>(views(items@));
    let mut text = String::new();
    let mut at: usize = 0;
    assert(text@ =~= nodes_text(models, 0));
    while at < ordered.len()
        invariant
            at <= ordered@.len(),
            models == crate::order::shown(ordered@),
            text@ == nodes_text(models, at as int),
        decreases ordered@.len() - at,
    {
        assert(models[at as int] == ordered@[at as int]@);
        text.append("\n");
        text.append(node_of(ordered[at]).as_str());
        at = at + 1;
    }
    text
}

fn edges_of(items: &Vec<EdgeDeclaration>) -> (text: String)
    ensures
        text@ == edges_text(
            sorted::<EdgeDeclaration>(views(items@)),
            sorted::<EdgeDeclaration>(views(items@)).len() as int,
        ),
{
    let ordered = in_sequence(items);
    let ghost models = sorted::<EdgeDeclaration>(views(items@));
    let mut text = String::new();
    let mut at: usize = 0;
    assert(text@ =~= edges_text(models, 0));
    while at < ordered.len()
        invariant
            at <= ordered@.len(),
            models == crate::order::shown(ordered@),
            text@ == edges_text(models, at as int),
        decreases ordered@.len() - at,
    {
        assert(models[at as int] == ordered@[at as int]@);
        text.append("\n");
        text.append(edge_of(ordered[at]).as_str());
        at = at + 1;
    }
    text
}

/// Renders a parsed file in canonical form.
pub fn format(file: &SourceFile) -> (text: String)
    ensures
        text@ == formatted(file@),
{
    let mut version = "@nost ".to_owned();
    write_digits(&mut version, file.version.value as u64);
    let mut out = entry_of(0, version.as_str(), &file.version_comments);
    let ghost before = out@;
    if file.links.len() > 0 {
        let mut group = "\n".to_owned();
        group.append(links_of(&file.links).as_str());
        out.append(group.as_str());
    }
    assert(out@ =~= before + link_group(file@));
    out.append(schemas_of(&file.schemas).as_str());
    out.append(nodes_of(&file.nodes).as_str());
    out.append(edges_of(&file.edges).as_str());
    out.append(comments_at_end(0, &file.trailing_comments, true).as_str());
    out
}

} // verus!
