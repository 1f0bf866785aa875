//! The values a query works with.
//!
//! Values compare by what they mean: an integer and a float of the same value are equal,
//! and one order runs through values of every kind, so sorting a mixed column is
//! reproducible.

use crate::big::Relation;
use crate::copies::Copied;
use crate::float::compare_integer_to_float;
use crate::float::finite;
use crate::float::integer_units;
use crate::float::signed_units;
use crate::float::Format;
use crate::id::bytes_precede;
use crate::id::LocalEdgeId;
use crate::id::LocalNodeId;
use crate::nost::convert::hex_of;
use crate::nost::convert::write_hex;
use crate::number::all_digits;
use crate::number::digits_of;
use crate::number::digits_read_back;
use crate::number::is_digit;
use crate::number::show_signed;
use crate::number::show_unsigned;
use crate::number::shown;
use crate::number::value_of;
use crate::order::Ordered;
use crate::property::FiniteF64;
use crate::property::PropertyModel;
use crate::property::PropertyScalar;
use crate::property::PropertyValue;
use crate::property::ScalarModel;
use crate::shortest::plain_double;
use crate::shortest::show_plain;
use crate::shortest::zeros;
use crate::single::units_grow;
use crate::text::is_before;
use crate::text::joined;
use crate::text::precedes;
use crate::text::same;
use crate::text::views;
use crate::text::views_push;
use vstd::prelude::*;
use vstd::string::StringExecFns;

verus! {

// -- Record handles ----------------------------------------------------------------

/// A record handle inside a query, carrying which source it came from.
///
/// An identifier is unique within one database and nowhere else. A federated query sees
/// several, and two of them may carry the same identifier, so a bound record names its
/// source as well as its identifier. `source` is an index into the query's source list, and
/// `0` is always the root.
#[derive(Clone, Copy, Debug, PartialEq, Eq, PartialOrd, Ord, Hash)]
pub struct Scoped<T> {
    /// Which source, indexed from the root at zero.
    pub source: u32,
    /// The record's identifier within that source.
    pub id: T,
}

impl<T> Scoped<T> {
    /// A handle to a record in the root database.
    pub fn root(id: T) -> (handle: Self)
        ensures
            handle == (Scoped { source: 0, id }),
    {
        Scoped { source: 0, id }
    }

    /// Reports whether this record belongs to the root rather than a linked source.
    ///
    /// A write may only touch the root, so this is what a refusal turns on.
    pub fn is_root(&self) -> (answer: bool)
        ensures
            answer == (self.source == 0),
    {
        self.source == 0
    }
}

/// A bound node.
pub type ScopedNode = Scoped<LocalNodeId>;

/// A bound relationship.
pub type ScopedEdge = Scoped<LocalEdgeId>;

/// A source index in ten digits, so the texts are ordered as the numbers.
pub open spec fn padded(source: u32) -> Seq<char> {
    zeros(10 - digits_of(source as nat).len()) + digits_of(source as nat)
}

/// Whether one handle comes before another: by source, then by identifier.
pub open spec fn handle_before(left: (u32, Seq<u8>), right: (u32, Seq<u8>)) -> bool {
    left.0 < right.0 || (left.0 == right.0 && bytes_precede(left.1, right.1))
}

fn padded_text(source: u32) -> (text: String)
    ensures
        text@ == padded(source),
{
    let digits = show_unsigned(source as u64);
    let count: usize = digits.as_str().unicode_len();
    let mut text = String::new();
    let mut at: usize = count;
    assert(text@ =~= zeros(0));
    while at < 10
        invariant
            count <= at,
            at <= 10 || at == count,
            count == digits@.len(),
            text@ =~= zeros(at - count),
        decreases 10 - at,
    {
        text.push('0');
        at = at + 1;
    }
    text.append(digits.as_str());
    text
}

impl Scoped<LocalNodeId> {
    /// The total-order key of a node handle: its source, and its identifier.
    pub open spec fn key(self) -> Seq<char> {
        padded(self.source) + ":"@ + self.id.text()
    }

    /// A total-order key that keeps two sources apart.
    ///
    /// The source is padded with zeros so that the key orders numerically, and a colon
    /// cannot appear in an identifier, so the two fields cannot run together.
    pub fn sort_key(&self) -> (key: String)
        ensures
            key@ == self.key(),
    {
        let mut key = padded_text(self.source);
        key.append(":");
        key.append(self.id.to_string().as_str());
        key
    }

    /// Whether two handles are of the same record.
    pub fn same(&self, other: &Self) -> (answer: bool)
        ensures
            answer == (*self == *other),
    {
        let answer = self.source == other.source && self.id.same(&other.id);
        proof {
            if answer {
                LocalNodeId::same_bytes(self.id, other.id);
            }
        }
        answer
    }

    /// The identifier alone.
    pub fn to_string(&self) -> (text: String)
        ensures
            text@ == self.id.text(),
    {
        self.id.to_string()
    }
}

impl Scoped<LocalEdgeId> {
    /// The total-order key of a relationship handle: its source, and its identifier.
    pub open spec fn key(self) -> Seq<char> {
        padded(self.source) + ":"@ + self.id.text()
    }

    /// A total-order key that keeps two sources apart.
    ///
    /// The source is padded with zeros so that the key orders numerically, and a colon
    /// cannot appear in an identifier, so the two fields cannot run together.
    pub fn sort_key(&self) -> (key: String)
        ensures
            key@ == self.key(),
    {
        let mut key = padded_text(self.source);
        key.append(":");
        key.append(self.id.to_string().as_str());
        key
    }

    /// Whether two handles are of the same record.
    pub fn same(&self, other: &Self) -> (answer: bool)
        ensures
            answer == (*self == *other),
    {
        let answer = self.source == other.source && self.id.same(&other.id);
        proof {
            if answer {
                LocalEdgeId::same_bytes(self.id, other.id);
            }
        }
        answer
    }

    /// The identifier alone.
    pub fn to_string(&self) -> (text: String)
        ensures
            text@ == self.id.text(),
    {
        self.id.to_string()
    }
}

// -- Keys of handles ---------------------------------------------------------------

/// A power of ten.
spec fn tens(count: nat) -> nat
    decreases count,
{
    if count == 0 {
        1
    } else {
        10 * tens((count - 1) as nat)
    }
}

proof fn digits_fit(number: nat, count: nat)
    requires
        count > 0,
        number < tens(count),
    ensures
        digits_of(number).len() <= count,
    decreases count,
{
    if number >= 10 {
        reveal_with_fuel(tens, 2);
        assert(count > 1);
        assert(number / 10 < tens((count - 1) as nat)) by {
            assert(number < 10 * tens((count - 1) as nat));
        }
        digits_fit(number / 10, (count - 1) as nat);
    }
}

proof fn zeros_are_worth_nothing(count: int, digits: Seq<char>)
    ensures
        value_of(zeros(count) + digits) == value_of(digits),
    decreases digits.len(), count,
{
    let all = zeros(count) + digits;
    if digits.len() > 0 {
        assert(all.drop_last() =~= zeros(count) + digits.drop_last());
        zeros_are_worth_nothing(count, digits.drop_last());
    } else if count > 0 {
        assert(all.drop_last() =~= zeros(count - 1) + digits);
        assert(all.last() == '0');
        zeros_are_worth_nothing(count - 1, digits);
    } else {
        assert(all =~= digits);
    }
}

proof fn padded_is_the_number(source: u32)
    ensures
        padded(source).len() == 10,
        all_digits(padded(source)),
        value_of(padded(source)) == source,
{
    let digits = digits_of(source as nat);
    assert(tens(10) == 10000000000) by {
        reveal_with_fuel(tens, 11);
    }
    digits_fit(source as nat, 10);
    digits_read_back(source as nat);
    zeros_are_worth_nothing(10 - digits.len(), digits);
    assert forall|i: int| 0 <= i < padded(source).len() implies is_digit(
        #[trigger] padded(source)[i],
    ) by {
        if i >= 10 - digits.len() {
            assert(is_digit(digits[i - (10 - digits.len())]));
        }
    }
}

proof fn same_start_same_order(start: Seq<char>, left: Seq<char>, right: Seq<char>)
    ensures
        precedes(start + left, start + right) == precedes(left, right),
    decreases start.len(),
{
    if start.len() == 0 {
        assert(start + left =~= left);
        assert(start + right =~= right);
    } else {
        assert((start + left).drop_first() =~= start.drop_first() + left);
        assert((start + right).drop_first() =~= start.drop_first() + right);
        same_start_same_order(start.drop_first(), left, right);
    }
}

proof fn same_value_same_digits(left: Seq<char>, right: Seq<char>)
    requires
        left.len() == right.len(),
        all_digits(left),
        all_digits(right),
        value_of(left) == value_of(right),
    ensures
        left == right,
    decreases left.len(),
{
    if left.len() > 0 {
        assert(is_digit(left.last()) && is_digit(right.last()));
        same_value_same_digits(left.drop_last(), right.drop_last());
        assert(left =~= left.drop_last().push(left.last()));
        assert(right =~= right.drop_last().push(right.last()));
    }
}

/// Numbers of one width are ordered as their digits are, whatever follows.
proof fn smaller_numbers_come_first(
    left: Seq<char>,
    right: Seq<char>,
    behind: Seq<char>,
    after: Seq<char>,
)
    requires
        left.len() == right.len(),
        all_digits(left),
        all_digits(right),
        value_of(left) < value_of(right),
    ensures
        precedes(left + behind, right + after),
    decreases left.len(),
{
    let a = left.drop_last();
    let b = right.drop_last();
    let c = seq![left.last()] + behind;
    let d = seq![right.last()] + after;
    assert(is_digit(left.last()) && is_digit(right.last()));
    assert(left + behind =~= a + c);
    assert(right + after =~= b + d);
    if value_of(a) < value_of(b) {
        smaller_numbers_come_first(a, b, c, d);
    } else {
        same_value_same_digits(a, b);
        same_start_same_order(a, c, d);
    }
}

/// Two node handles with the same key are of the same record, and the key of a node in an
/// earlier source comes first.
pub proof fn node_keys_tell_records_apart(left: ScopedNode, right: ScopedNode)
    ensures
        left.key() == right.key() ==> left == right,
        left.source < right.source ==> precedes(left.key(), right.key()),
{
    let a = ":"@ + left.id.text();
    let b = ":"@ + right.id.text();
    assert(left.key() =~= padded(left.source) + a);
    assert(right.key() =~= padded(right.source) + b);
    padded_is_the_number(left.source);
    padded_is_the_number(right.source);
    if left.source < right.source {
        smaller_numbers_come_first(padded(left.source), padded(right.source), a, b);
    }
    if left.key() == right.key() {
        assert(left.key().take(10) =~= padded(left.source));
        assert(right.key().take(10) =~= padded(right.source));
        assert(left.key().skip(10 + ":"@.len() as int) =~= left.id.text());
        assert(right.key().skip(10 + ":"@.len() as int) =~= right.id.text());
        right.id.text_reads_back(left.id);
    }
}

/// Two relationship handles with the same key are of the same record, and the key of a
/// relationship in an earlier source comes first.
pub proof fn edge_keys_tell_records_apart(left: ScopedEdge, right: ScopedEdge)
    ensures
        left.key() == right.key() ==> left == right,
        left.source < right.source ==> precedes(left.key(), right.key()),
{
    let a = ":"@ + left.id.text();
    let b = ":"@ + right.id.text();
    assert(left.key() =~= padded(left.source) + a);
    assert(right.key() =~= padded(right.source) + b);
    padded_is_the_number(left.source);
    padded_is_the_number(right.source);
    if left.source < right.source {
        smaller_numbers_come_first(padded(left.source), padded(right.source), a, b);
    }
    if left.key() == right.key() {
        assert(left.key().take(10) =~= padded(left.source));
        assert(right.key().take(10) =~= padded(right.source));
        assert(left.key().skip(10 + ":"@.len() as int) =~= left.id.text());
        assert(right.key().skip(10 + ":"@.len() as int) =~= right.id.text());
        right.id.text_reads_back(left.id);
    }
}

// -- Values ------------------------------------------------------------------------

/// A value a query can produce.
#[derive(Debug)]
pub enum QueryValue {
    /// Missing or non-applicable. Only a query result carries this; stored data cannot.
    Null,
    /// A boolean.
    Boolean(bool),
    /// An integer.
    Integer(i64),
    /// A finite number.
    Float(FiniteF64),
    /// Text.
    Text(String),
    /// A list.
    List(Vec<QueryValue>),
    /// A bound node.
    Node(ScopedNode),
    /// A bound relationship.
    Relationship(ScopedEdge),
    /// A bound path: alternating nodes and relationships.
    Path {
        /// Nodes along the path, in order.
        nodes: Vec<ScopedNode>,
        /// Relationships between them, in order.
        relationships: Vec<ScopedEdge>,
    },
}

/// What a value is.
pub enum QueryModel {
    /// Missing or non-applicable.
    Null,
    /// A boolean.
    Boolean(bool),
    /// An integer.
    Integer(i64),
    /// A finite number, by its bits.
    Float(u64),
    /// Text.
    Text(Seq<char>),
    /// A list.
    List(Seq<QueryModel>),
    /// A bound node.
    Node(ScopedNode),
    /// A bound relationship.
    Relationship(ScopedEdge),
    /// A bound path.
    Path {
        /// Nodes along the path, in order.
        nodes: Seq<ScopedNode>,
        /// Relationships between them, in order.
        relationships: Seq<ScopedEdge>,
    },
}

/// The models of the first `count` items.
pub open spec fn item_models(items: Seq<QueryValue>, count: nat) -> Seq<QueryModel>
    decreases items, count,
{
    if count == 0 || count > items.len() {
        Seq::empty()
    } else {
        item_models(items, (count - 1) as nat).push(value_model(items[count - 1]))
    }
}

/// What a value is.
pub open spec fn value_model(value: QueryValue) -> QueryModel
    decreases value, 0nat,
{
    match value {
        QueryValue::Null => QueryModel::Null,
        QueryValue::Boolean(inner) => QueryModel::Boolean(inner),
        QueryValue::Integer(inner) => QueryModel::Integer(inner),
        QueryValue::Float(inner) => QueryModel::Float(inner@),
        QueryValue::Text(inner) => QueryModel::Text(inner@),
        QueryValue::List(items) => QueryModel::List(item_models(items@, items@.len())),
        QueryValue::Node(handle) => QueryModel::Node(handle),
        QueryValue::Relationship(handle) => QueryModel::Relationship(handle),
        QueryValue::Path { nodes, relationships } => QueryModel::Path {
            nodes: nodes@,
            relationships: relationships@,
        },
    }
}

impl View for QueryValue {
    type V = QueryModel;

    open spec fn view(&self) -> QueryModel {
        value_model(*self)
    }
}

proof fn item_models_are_views(items: Seq<QueryValue>, count: nat)
    requires
        count <= items.len(),
    ensures
        item_models(items, count) == views(items.take(count as int)),
    decreases count,
{
    if count > 0 {
        item_models_are_views(items, (count - 1) as nat);
        assert(items.take(count as int) =~= items.take(count - 1).push(items[count - 1]));
        views_push(items.take(count - 1), items[count - 1]);
    } else {
        assert(views(items.take(0)) =~= Seq::empty());
    }
}

/// The model of a list is the list of the models.
pub proof fn list_model(items: Seq<QueryValue>)
    ensures
        item_models(items, items.len()) == views(items),
{
    item_models_are_views(items, items.len());
    assert(items.take(items.len() as int) =~= items);
}

/// A list as a value.
pub fn list_value(items: Vec<QueryValue>) -> (value: QueryValue)
    ensures
        value@ == QueryModel::List(views(items@)),
{
    proof {
        list_model(items@);
    }
    QueryValue::List(items)
}

/// Copies handles.
pub fn copy_handles<T: Copy>(handles: &Vec<Scoped<T>>) -> (copy: Vec<Scoped<T>>)
    ensures
        copy@ == handles@,
{
    let mut copy: Vec<Scoped<T>> = Vec::new();
    let mut at: usize = 0;
    while at < handles.len()
        invariant
            at <= handles@.len(),
            copy@ =~= handles@.take(at as int),
        decreases handles@.len() - at,
    {
        copy.push(Scoped { source: handles[at].source, id: handles[at].id });
        at = at + 1;
    }
    assert(copy@ =~= handles@);
    copy
}

/// Copies values.
pub fn copy_values(items: &Vec<QueryValue>) -> (copy: Vec<QueryValue>)
    ensures
        views(copy@) == views(items@),
    decreases items,
{
    let mut copy: Vec<QueryValue> = Vec::new();
    let mut at: usize = 0;
    while at < items.len()
        invariant
            at <= items@.len(),
            views(copy@) =~= views(items@).take(at as int),
        decreases items@.len() - at,
    {
        assert(decreases_to!(items => items@[at as int]));
        let item = copy_value(&items[at]);
        proof {
            views_push(copy@, item);
        }
        copy.push(item);
        at = at + 1;
    }
    assert(views(copy@) =~= views(items@));
    copy
}

/// Copies a value.
pub fn copy_value(value: &QueryValue) -> (copy: QueryValue)
    ensures
        copy@ == value@,
    decreases value,
{
    match value {
        QueryValue::Null => QueryValue::Null,
        QueryValue::Boolean(inner) => QueryValue::Boolean(*inner),
        QueryValue::Integer(inner) => QueryValue::Integer(*inner),
        QueryValue::Float(inner) => QueryValue::Float(*inner),
        QueryValue::Text(inner) => QueryValue::Text(inner.clone()),
        QueryValue::List(items) => {
            let copy = copy_values(items);
            proof {
                list_model(items@);
            }
            list_value(copy)
        }
        QueryValue::Node(handle) => QueryValue::Node(*handle),
        QueryValue::Relationship(handle) => QueryValue::Relationship(*handle),
        QueryValue::Path { nodes, relationships } => QueryValue::Path {
            nodes: copy_handles(nodes),
            relationships: copy_handles(relationships),
        },
    }
}

impl Clone for QueryValue {
    fn clone(&self) -> (copy: Self)
        ensures
            copy@ == self@,
    {
        copy_value(self)
    }
}

impl Copied for QueryValue {
    fn copied(&self) -> (copy: Self) {
        copy_value(self)
    }
}

impl QueryModel {
    /// Whether this value passes a predicate: only `true` does.
    pub open spec fn truthy(self) -> bool {
        self == QueryModel::Boolean(true)
    }

    /// What kind of value this is.
    pub open spec fn kind(self) -> Seq<char> {
        match self {
            QueryModel::Null => "null"@,
            QueryModel::Boolean(_) => "a boolean"@,
            QueryModel::Integer(_) => "an integer"@,
            QueryModel::Float(_) => "a number"@,
            QueryModel::Text(_) => "text"@,
            QueryModel::List(_) => "a list"@,
            QueryModel::Node(_) => "a node"@,
            QueryModel::Relationship(_) => "a relationship"@,
            QueryModel::Path { .. } => "a path"@,
        }
    }

    /// Whether this value is a number.
    pub open spec fn is_number(self) -> bool {
        self is Integer || self is Float
    }

    /// The value of a number, counted in the smallest positive 64-bit number.
    pub open spec fn amount(self) -> int {
        match self {
            QueryModel::Integer(number) => integer_units(number as int),
            QueryModel::Float(bits) => signed_units(bits),
            _ => 0,
        }
    }

    /// The place of this value's kind in the order of kinds.
    pub open spec fn rank(self) -> int {
        match self {
            QueryModel::Null => 0,
            QueryModel::Boolean(_) => 1,
            QueryModel::Integer(_) => 2,
            QueryModel::Float(_) => 2,
            QueryModel::Text(_) => 3,
            QueryModel::List(_) => 4,
            QueryModel::Node(_) => 5,
            QueryModel::Relationship(_) => 6,
            QueryModel::Path { .. } => 7,
        }
    }
}

impl QueryValue {
    /// Interprets this value as a predicate outcome.
    ///
    /// Only `true` is true. `null` is not, which is what keeps an unmatched
    /// `OPTIONAL MATCH` row from passing a predicate by accident.
    pub fn is_truthy(&self) -> (answer: bool)
        ensures
            answer == self@.truthy(),
    {
        match self {
            QueryValue::Boolean(inner) => *inner,
            _ => false,
        }
    }

    /// Whether this value is null.
    pub fn is_null(&self) -> (answer: bool)
        ensures
            answer == (self@ == QueryModel::Null),
    {
        match self {
            QueryValue::Null => true,
            _ => false,
        }
    }

    /// What kind of value this is, for a diagnostic that has to name it.
    pub fn kind_name(&self) -> (name: &'static str)
        ensures
            name@ == self@.kind(),
    {
        match self {
            QueryValue::Null => "null",
            QueryValue::Boolean(_) => "a boolean",
            QueryValue::Integer(_) => "an integer",
            QueryValue::Float(_) => "a number",
            QueryValue::Text(_) => "text",
            QueryValue::List(_) => "a list",
            QueryValue::Node(_) => "a node",
            QueryValue::Relationship(_) => "a relationship",
            QueryValue::Path { .. } => "a path",
        }
    }
}

// -- Stored values -----------------------------------------------------------------

/// The value a stored scalar is read as. Bytes are read as their hexadecimal digits.
pub open spec fn of_scalar(scalar: ScalarModel) -> QueryModel {
    match scalar {
        ScalarModel::Boolean(inner) => QueryModel::Boolean(inner),
        ScalarModel::Integer(inner) => QueryModel::Integer(inner),
        ScalarModel::Float(inner) => QueryModel::Float(inner),
        ScalarModel::String(inner) => QueryModel::Text(inner),
        ScalarModel::Bytes(inner) => QueryModel::Text(hex_of(inner)),
        ScalarModel::DateTime(inner) => QueryModel::Text(inner),
    }
}

/// The value a stored property is read as.
pub open spec fn of_property(value: PropertyModel) -> QueryModel {
    match value {
        PropertyModel::Scalar(scalar) => of_scalar(scalar),
        PropertyModel::List(items) => QueryModel::List(
            Seq::new(items.len(), |i: int| of_scalar(items[i])),
        ),
    }
}

fn hex_value(bytes: &Vec<u8>) -> (value: QueryValue)
    ensures
        value@ == QueryModel::Text(hex_of(bytes@)),
{
    let mut digits = String::new();
    write_hex(&mut digits, bytes.as_slice());
    assert(digits@ =~= hex_of(bytes@));
    QueryValue::Text(digits)
}

fn from_scalar(scalar: &PropertyScalar) -> (value: QueryValue)
    ensures
        value@ == of_scalar(scalar@),
{
    match scalar {
        PropertyScalar::Boolean(inner) => QueryValue::Boolean(*inner),
        PropertyScalar::Integer(inner) => QueryValue::Integer(*inner),
        PropertyScalar::Float(inner) => QueryValue::Float(*inner),
        PropertyScalar::String(inner) => QueryValue::Text(inner.clone()),
        PropertyScalar::Bytes(inner) => hex_value(inner),
        PropertyScalar::DateTime(inner) => QueryValue::Text(inner.as_str().to_owned()),
    }
}

impl QueryValue {
    /// The value a stored property is read as.
    pub fn from_property(value: &PropertyValue) -> (made: Self)
        ensures
            made@ == of_property(value@),
    {
        match value {
            PropertyValue::Boolean(inner) => QueryValue::Boolean(*inner),
            PropertyValue::Integer(inner) => QueryValue::Integer(*inner),
            PropertyValue::Float(inner) => QueryValue::Float(*inner),
            PropertyValue::String(inner) => QueryValue::Text(inner.clone()),
            PropertyValue::Bytes(inner) => hex_value(inner),
            PropertyValue::DateTime(inner) => QueryValue::Text(inner.as_str().to_owned()),
            PropertyValue::List(items) => {
                let ghost models = views(items@);
                let mut list: Vec<QueryValue> = Vec::new();
                let mut at: usize = 0;
                while at < items.len()
                    invariant
                        at <= items@.len(),
                        models == views(items@),
                        views(list@) =~= Seq::new(at as nat, |i: int| of_scalar(models[i])),
                    decreases items@.len() - at,
                {
                    assert(models[at as int] == items@[at as int]@);
                    let item = from_scalar(&items[at]);
                    proof {
                        views_push(list@, item);
                    }
                    list.push(item);
                    at = at + 1;
                }
                assert(views(list@) =~= Seq::new(models.len(), |i: int| of_scalar(models[i])));
                list_value(list)
            }
        }
    }
}

// -- Equality ----------------------------------------------------------------------

/// Whether two lists of values are equal from `at` on.
pub open spec fn lists_equal(left: Seq<QueryModel>, right: Seq<QueryModel>, at: int) -> bool
    decreases left, left.len() - at,
{
    if at < 0 || at >= left.len() {
        true
    } else {
        equal(left[at], right[at]) && lists_equal(left, right, at + 1)
    }
}

/// Whether two values are equal. Numbers are equal where their values are.
pub open spec fn equal(left: QueryModel, right: QueryModel) -> bool
    decreases left, 0int,
{
    if left.is_number() && right.is_number() {
        left.amount() == right.amount()
    } else {
        match (left, right) {
            (QueryModel::List(a), QueryModel::List(b)) => a.len() == b.len() && lists_equal(a, b, 0),
            _ => left == right,
        }
    }
}

/// How the values of two finite 64-bit numbers compare.
fn compare_floats(left: u64, right: u64) -> (relation: Relation)
    requires
        finite(left),
        finite(right),
    ensures
        relation == of_amounts(signed_units(left), signed_units(right)),
{
    let a: u64 = left % 9223372036854775808;
    let b: u64 = right % 9223372036854775808;
    let minus = left >= 9223372036854775808;
    let other_minus = right >= 9223372036854775808;
    proof {
        let double = Format::double();
        let x = a as int;
        let y = b as int;
        if x < y {
            units_grow(x, y, double);
        }
        if y < x {
            units_grow(y, x, double);
        }
        if 0 < x {
            units_grow(0, x, double);
        }
        if 0 < y {
            units_grow(0, y, double);
        }
        crate::single::zero_is_nothing();
    }
    if minus && other_minus {
        if a < b {
            Relation::Above
        } else if a > b {
            Relation::Below
        } else {
            Relation::Same
        }
    } else if minus {
        if a == 0 && b == 0 {
            Relation::Same
        } else {
            Relation::Below
        }
    } else if other_minus {
        if a == 0 && b == 0 {
            Relation::Same
        } else {
            Relation::Above
        }
    } else if a < b {
        Relation::Below
    } else if a > b {
        Relation::Above
    } else {
        Relation::Same
    }
}

/// How two whole numbers compare.
pub open spec fn of_amounts(left: int, right: int) -> Relation {
    if left < right {
        Relation::Below
    } else if left > right {
        Relation::Above
    } else {
        Relation::Same
    }
}

/// The other way round.
pub open spec fn flipped(relation: Relation) -> Relation {
    match relation {
        Relation::Below => Relation::Above,
        Relation::Same => Relation::Same,
        Relation::Above => Relation::Below,
    }
}

/// The other way round.
pub fn flip(relation: Relation) -> (other: Relation)
    ensures
        other == flipped(relation),
{
    match relation {
        Relation::Below => Relation::Above,
        Relation::Same => Relation::Same,
        Relation::Above => Relation::Below,
    }
}

proof fn integer_amounts(left: int, right: int)
    ensures
        of_amounts(integer_units(left), integer_units(right)) == of_amounts(left, right),
{
    crate::big::two_adds(1074, 0);
    let p = crate::big::two(1074) as int;
    assert(left < right ==> left * p < right * p) by (nonlinear_arith)
        requires
            p > 0,
    ;
    assert(left > right ==> left * p > right * p) by (nonlinear_arith)
        requires
            p > 0,
    ;
}

/// How two numbers compare, by value. `None` where one is no number.
fn compare_numbers(left: &QueryValue, right: &QueryValue) -> (relation: Option<Relation>)
    ensures
        relation == (if left@.is_number() && right@.is_number() {
            Some(of_amounts(left@.amount(), right@.amount()))
        } else {
            None
        }),
{
    match (left, right) {
        (QueryValue::Integer(a), QueryValue::Integer(b)) => {
            proof {
                integer_amounts(*a as int, *b as int);
            }
            if *a < *b {
                Some(Relation::Below)
            } else if *a > *b {
                Some(Relation::Above)
            } else {
                Some(Relation::Same)
            }
        }
        (QueryValue::Integer(a), QueryValue::Float(b)) => Some(
            compare_integer_to_float(*a, b.get()),
        ),
        (QueryValue::Float(a), QueryValue::Integer(b)) => Some(
            flip(compare_integer_to_float(*b, a.get())),
        ),
        (QueryValue::Float(a), QueryValue::Float(b)) => Some(compare_floats(a.get(), b.get())),
        _ => None,
    }
}

fn same_nodes(left: &Vec<ScopedNode>, right: &Vec<ScopedNode>) -> (answer: bool)
    ensures
        answer == (left@ == right@),
{
    if left.len() != right.len() {
        return false;
    }
    let mut at: usize = 0;
    while at < left.len()
        invariant
            at <= left@.len(),
            left@.len() == right@.len(),
            forall|i: int| 0 <= i < at ==> left@[i] == right@[i],
        decreases left@.len() - at,
    {
        if !left[at].same(&right[at]) {
            return false;
        }
        at = at + 1;
    }
    assert(left@ =~= right@);
    true
}

fn same_edges(left: &Vec<ScopedEdge>, right: &Vec<ScopedEdge>) -> (answer: bool)
    ensures
        answer == (left@ == right@),
{
    if left.len() != right.len() {
        return false;
    }
    let mut at: usize = 0;
    while at < left.len()
        invariant
            at <= left@.len(),
            left@.len() == right@.len(),
            forall|i: int| 0 <= i < at ==> left@[i] == right@[i],
        decreases left@.len() - at,
    {
        if !left[at].same(&right[at]) {
            return false;
        }
        at = at + 1;
    }
    assert(left@ =~= right@);
    true
}

fn equal_lists(left: &Vec<QueryValue>, right: &Vec<QueryValue>) -> (answer: bool)
    requires
        left@.len() == right@.len(),
    ensures
        answer == lists_equal(views(left@), views(right@), 0),
    decreases left,
{
    let ghost a = views(left@);
    let ghost b = views(right@);
    let mut at: usize = 0;
    while at < left.len()
        invariant
            at <= left@.len(),
            left@.len() == right@.len(),
            a == views(left@),
            b == views(right@),
            lists_equal(a, b, 0) == lists_equal(a, b, at as int),
        decreases left@.len() - at,
    {
        assert(a[at as int] == left@[at as int]@ && b[at as int] == right@[at as int]@);
        assert(decreases_to!(left => left@[at as int]));
        if !left[at].is_equal(&right[at]) {
            return false;
        }
        at = at + 1;
    }
    true
}

impl QueryValue {
    /// Whether two values are equal. An integer equals the float of the same value.
    pub fn is_equal(&self, other: &Self) -> (answer: bool)
        ensures
            answer == equal(self@, other@),
        decreases self,
    {
        match compare_numbers(self, other) {
            Some(relation) => {
                return match relation {
                    Relation::Same => true,
                    _ => false,
                };
            }
            None => {}
        }
        match (self, other) {
            (QueryValue::Null, QueryValue::Null) => true,
            (QueryValue::Boolean(a), QueryValue::Boolean(b)) => *a == *b,
            (QueryValue::Text(a), QueryValue::Text(b)) => same(a.as_str(), b.as_str()),
            (QueryValue::List(a), QueryValue::List(b)) => {
                proof {
                    list_model(a@);
                    list_model(b@);
                }
                a.len() == b.len() && equal_lists(a, b)
            }
            (QueryValue::Node(a), QueryValue::Node(b)) => a.same(b),
            (QueryValue::Relationship(a), QueryValue::Relationship(b)) => a.same(b),
            (
                QueryValue::Path { nodes, relationships },
                QueryValue::Path { nodes: other_nodes, relationships: other_relationships },
            ) => same_nodes(nodes, other_nodes) && same_edges(relationships, other_relationships),
            _ => false,
        }
    }
}

impl PartialEq for QueryValue {
    fn eq(&self, other: &Self) -> (answer: bool) {
        self.is_equal(other)
    }
}

impl vstd::std_specs::cmp::PartialEqSpecImpl for QueryValue {
    open spec fn obeys_eq_spec() -> bool {
        true
    }

    open spec fn eq_spec(&self, other: &Self) -> bool {
        equal(self@, other@)
    }
}

// -- Order -------------------------------------------------------------------------

/// How two texts compare.
pub open spec fn of_texts(left: Seq<char>, right: Seq<char>) -> Relation {
    if precedes(left, right) {
        Relation::Below
    } else if precedes(right, left) {
        Relation::Above
    } else {
        Relation::Same
    }
}

/// How two handles compare: by source, then by identifier.
pub open spec fn of_handles(left: (u32, Seq<u8>), right: (u32, Seq<u8>)) -> Relation {
    if handle_before(left, right) {
        Relation::Below
    } else if handle_before(right, left) {
        Relation::Above
    } else {
        Relation::Same
    }
}

/// How two lists of handles compare, from `at` on.
pub open spec fn of_paths(left: Seq<ScopedNode>, right: Seq<ScopedNode>, at: int) -> Relation
    decreases left.len() - at,
{
    if at < 0 || at >= left.len() || at >= right.len() {
        of_amounts(left.len() as int, right.len() as int)
    } else {
        match of_handles((left[at].source, left[at].id@), (right[at].source, right[at].id@)) {
            Relation::Same => of_paths(left, right, at + 1),
            other => other,
        }
    }
}

/// How two lists of values compare, from `at` on.
pub open spec fn of_lists(left: Seq<QueryModel>, right: Seq<QueryModel>, at: int) -> Relation
    decreases left, left.len() - at,
{
    if at < 0 || at >= left.len() || at >= right.len() {
        of_amounts(left.len() as int, right.len() as int)
    } else {
        match compared(left[at], right[at]) {
            Relation::Same => of_lists(left, right, at + 1),
            other => other,
        }
    }
}

/// How two values compare: by kind first, and values of one kind by what they are. A path
/// compares by the nodes along it.
pub open spec fn compared(left: QueryModel, right: QueryModel) -> Relation
    decreases left, 0int,
{
    if left.rank() != right.rank() {
        of_amounts(left.rank(), right.rank())
    } else {
        match (left, right) {
            (QueryModel::Null, _) => Relation::Same,
            (QueryModel::Boolean(a), QueryModel::Boolean(b)) => of_amounts(
                if a {
                    1
                } else {
                    0
                },
                if b {
                    1
                } else {
                    0
                },
            ),
            (QueryModel::Text(a), QueryModel::Text(b)) => of_texts(a, b),
            (QueryModel::List(a), QueryModel::List(b)) => of_lists(a, b, 0),
            (QueryModel::Node(a), QueryModel::Node(b)) => of_handles(
                (a.source, a.id@),
                (b.source, b.id@),
            ),
            (QueryModel::Relationship(a), QueryModel::Relationship(b)) => of_handles(
                (a.source, a.id@),
                (b.source, b.id@),
            ),
            (QueryModel::Path { nodes: a, .. }, QueryModel::Path { nodes: b, .. }) => of_paths(
                a,
                b,
                0,
            ),
            _ => of_amounts(left.amount(), right.amount()),
        }
    }
}

fn compare_texts(left: &str, right: &str) -> (relation: Relation)
    ensures
        relation == of_texts(left@, right@),
{
    if is_before(left, right) {
        Relation::Below
    } else if is_before(right, left) {
        Relation::Above
    } else {
        Relation::Same
    }
}

fn compare_counts(left: usize, right: usize) -> (relation: Relation)
    ensures
        relation == of_amounts(left as int, right as int),
{
    if left < right {
        Relation::Below
    } else if left > right {
        Relation::Above
    } else {
        Relation::Same
    }
}

fn compare_nodes(left: &ScopedNode, right: &ScopedNode) -> (relation: Relation)
    ensures
        relation == of_handles((left.source, left.id@), (right.source, right.id@)),
{
    if left.source < right.source {
        Relation::Below
    } else if left.source > right.source {
        Relation::Above
    } else if left.id.is_before(&right.id) {
        Relation::Below
    } else if right.id.is_before(&left.id) {
        Relation::Above
    } else {
        Relation::Same
    }
}

fn compare_edges(left: &ScopedEdge, right: &ScopedEdge) -> (relation: Relation)
    ensures
        relation == of_handles((left.source, left.id@), (right.source, right.id@)),
{
    if left.source < right.source {
        Relation::Below
    } else if left.source > right.source {
        Relation::Above
    } else if left.id.is_before(&right.id) {
        Relation::Below
    } else if right.id.is_before(&left.id) {
        Relation::Above
    } else {
        Relation::Same
    }
}

fn compare_paths(left: &Vec<ScopedNode>, right: &Vec<ScopedNode>) -> (relation: Relation)
    ensures
        relation == of_paths(left@, right@, 0),
{
    let mut at: usize = 0;
    while at < left.len() && at < right.len()
        invariant
            at <= left@.len(),
            at <= right@.len(),
            of_paths(left@, right@, 0) == of_paths(left@, right@, at as int),
        decreases left@.len() - at,
    {
        let relation = compare_nodes(&left[at], &right[at]);
        match relation {
            Relation::Same => {}
            _ => {
                return relation;
            }
        }
        at = at + 1;
    }
    compare_counts(left.len(), right.len())
}

fn compare_lists(left: &Vec<QueryValue>, right: &Vec<QueryValue>) -> (relation: Relation)
    ensures
        relation == of_lists(views(left@), views(right@), 0),
    decreases left,
{
    let ghost a = views(left@);
    let ghost b = views(right@);
    let mut at: usize = 0;
    while at < left.len() && at < right.len()
        invariant
            at <= left@.len(),
            at <= right@.len(),
            a == views(left@),
            b == views(right@),
            of_lists(a, b, 0) == of_lists(a, b, at as int),
        decreases left@.len() - at,
    {
        assert(a[at as int] == left@[at as int]@ && b[at as int] == right@[at as int]@);
        assert(decreases_to!(left => left@[at as int]));
        let relation = left[at].relation(&right[at]);
        match relation {
            Relation::Same => {}
            _ => {
                return relation;
            }
        }
        at = at + 1;
    }
    compare_counts(left.len(), right.len())
}

impl QueryValue {
    fn rank_number(&self) -> (rank: usize)
        ensures
            rank == self@.rank(),
    {
        match self {
            QueryValue::Null => 0,
            QueryValue::Boolean(_) => 1,
            QueryValue::Integer(_) => 2,
            QueryValue::Float(_) => 2,
            QueryValue::Text(_) => 3,
            QueryValue::List(_) => 4,
            QueryValue::Node(_) => 5,
            QueryValue::Relationship(_) => 6,
            QueryValue::Path { .. } => 7,
        }
    }

    /// How this value compares to another, in the one order that runs through all values.
    pub fn relation(&self, other: &Self) -> (relation: Relation)
        ensures
            relation == compared(self@, other@),
        decreases self,
    {
        match compare_numbers(self, other) {
            Some(relation) => {
                return relation;
            }
            None => {}
        }
        match (self, other) {
            (QueryValue::Null, QueryValue::Null) => Relation::Same,
            (QueryValue::Boolean(a), QueryValue::Boolean(b)) => {
                if *a == *b {
                    Relation::Same
                } else if *b {
                    Relation::Below
                } else {
                    Relation::Above
                }
            }
            (QueryValue::Text(a), QueryValue::Text(b)) => compare_texts(a.as_str(), b.as_str()),
            (QueryValue::List(a), QueryValue::List(b)) => {
                proof {
                    list_model(a@);
                    list_model(b@);
                }
                compare_lists(a, b)
            }
            (QueryValue::Node(a), QueryValue::Node(b)) => compare_nodes(a, b),
            (QueryValue::Relationship(a), QueryValue::Relationship(b)) => compare_edges(a, b),
            (QueryValue::Path { nodes, .. }, QueryValue::Path { nodes: other_nodes, .. }) =>
                compare_paths(nodes, other_nodes),
            _ => compare_counts(self.rank_number(), other.rank_number()),
        }
    }
}

// -- Text --------------------------------------------------------------------------

/// The first `count` texts of nodes with a hyphen between them.
pub open spec fn joined_nodes(nodes: Seq<ScopedNode>, count: int) -> Seq<char>
    decreases count,
{
    if count <= 0 {
        Seq::empty()
    } else if count == 1 {
        nodes[0].id.text()
    } else {
        joined_nodes(nodes, count - 1) + "-"@ + nodes[count - 1].id.text()
    }
}

/// The first `count` items as shown, with a comma between them.
pub open spec fn joined_items(items: Seq<QueryModel>, count: int) -> Seq<char>
    decreases items, count,
{
    if count <= 0 || count > items.len() {
        Seq::empty()
    } else if count == 1 {
        shown_value(items[0])
    } else {
        joined_items(items, count - 1) + ", "@ + shown_value(items[count - 1])
    }
}

/// How a value is shown.
pub open spec fn shown_value(value: QueryModel) -> Seq<char>
    decreases value, 0int,
{
    match value {
        QueryModel::Null => "null"@,
        QueryModel::Boolean(inner) => if inner {
            "true"@
        } else {
            "false"@
        },
        QueryModel::Integer(inner) => shown(inner as int),
        QueryModel::Float(inner) => plain_double(inner),
        QueryModel::Text(inner) => inner,
        QueryModel::List(items) => "["@ + joined_items(items, items.len() as int) + "]"@,
        QueryModel::Node(handle) => handle.id.text(),
        QueryModel::Relationship(handle) => handle.id.text(),
        QueryModel::Path { nodes, .. } => joined_nodes(nodes, nodes.len() as int),
    }
}

fn join_nodes(nodes: &Vec<ScopedNode>) -> (text: String)
    ensures
        text@ == joined_nodes(nodes@, nodes@.len() as int),
{
    let mut text = String::new();
    let mut at: usize = 0;
    while at < nodes.len()
        invariant
            at <= nodes@.len(),
            text@ =~= joined_nodes(nodes@, at as int),
        decreases nodes@.len() - at,
    {
        if at > 0 {
            text.append("-");
        }
        text.append(nodes[at].id.to_string().as_str());
        at = at + 1;
    }
    text
}

fn join_items(items: &Vec<QueryValue>) -> (text: String)
    ensures
        text@ == joined_items(views(items@), items@.len() as int),
    decreases items,
{
    let ghost models = views(items@);
    let mut text = String::new();
    let mut at: usize = 0;
    while at < items.len()
        invariant
            at <= items@.len(),
            models == views(items@),
            text@ =~= joined_items(models, at as int),
        decreases items@.len() - at,
    {
        assert(models[at as int] == items@[at as int]@);
        assert(decreases_to!(items => items@[at as int]));
        if at > 0 {
            text.append(", ");
        }
        text.append(items[at].to_string().as_str());
        at = at + 1;
    }
    text
}

impl QueryValue {
    /// How this value is shown.
    pub fn to_string(&self) -> (text: String)
        ensures
            text@ == shown_value(self@),
        decreases self,
    {
        match self {
            QueryValue::Null => "null".to_owned(),
            QueryValue::Boolean(inner) => {
                if *inner {
                    "true".to_owned()
                } else {
                    "false".to_owned()
                }
            }
            QueryValue::Integer(inner) => show_signed(*inner),
            QueryValue::Float(inner) => show_plain(inner.get()),
            QueryValue::Text(inner) => inner.clone(),
            QueryValue::List(items) => {
                proof {
                    list_model(items@);
                }
                let mut text = joined("[", join_items(items).as_str());
                text.append("]");
                text
            }
            QueryValue::Node(handle) => handle.id.to_string(),
            QueryValue::Relationship(handle) => handle.id.to_string(),
            QueryValue::Path { nodes, .. } => join_nodes(nodes),
        }
    }
}

} // verus!
