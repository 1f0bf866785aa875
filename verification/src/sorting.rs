//! Sorting and telling apart rows of values.
//!
//! A row is sorted by a key: values that each go up or down. The order of keys is a total
//! one, so sorting is reproducible, and rows whose keys compare as the same keep the order
//! they came in.

use crate::big::Relation;
use crate::id::bytes_precede_irreflexive;
use crate::id::bytes_precede_total;
use crate::id::bytes_precede_transitive;
use crate::order::Ordered;
use crate::text::precedes_irreflexive;
use crate::text::precedes_total;
use crate::text::precedes_transitive;
use crate::text::views;
use crate::value::compared;
use crate::value::flip;
use crate::value::flipped;
use crate::value::of_amounts;
use crate::value::of_handles;
use crate::value::of_lists;
use crate::value::of_paths;
use crate::value::of_texts;
use crate::value::QueryModel;
use crate::value::QueryValue;
use crate::value::ScopedNode;
use vstd::prelude::*;

verus! {

// -- The order of values is total --------------------------------------------------

/// Whether a relation is the one that follows from two others in a row.
pub open spec fn follows(first: Relation, second: Relation, both: Relation) -> bool {
    first != Relation::Above && second != Relation::Above ==> {
        &&& both != Relation::Above
        &&& both == Relation::Same <==> first == Relation::Same && second == Relation::Same
    }
}

proof fn texts_chain(a: Seq<char>, b: Seq<char>, c: Seq<char>)
    ensures
        of_texts(b, a) == flipped(of_texts(a, b)),
        follows(of_texts(a, b), of_texts(b, c), of_texts(a, c)),
{
    precedes_irreflexive(a);
    precedes_irreflexive(b);
    precedes_total(a, b);
    precedes_total(b, c);
    precedes_total(a, c);
    if crate::text::precedes(a, b) && crate::text::precedes(b, a) {
        precedes_transitive(a, b, a);
    }
    if crate::text::precedes(a, b) && crate::text::precedes(b, c) {
        precedes_transitive(a, b, c);
    }
    if crate::text::precedes(a, c) && crate::text::precedes(c, a) {
        precedes_transitive(a, c, a);
    }
}

proof fn handles_chain(a: (u32, Seq<u8>), b: (u32, Seq<u8>), c: (u32, Seq<u8>))
    requires
        a.1.len() == b.1.len() == c.1.len(),
    ensures
        of_handles(b, a) == flipped(of_handles(a, b)),
        follows(of_handles(a, b), of_handles(b, c), of_handles(a, c)),
{
    bytes_precede_irreflexive(a.1);
    bytes_precede_irreflexive(b.1);
    bytes_precede_total(a.1, b.1);
    bytes_precede_total(b.1, c.1);
    bytes_precede_total(a.1, c.1);
    if crate::id::bytes_precede(a.1, b.1) && crate::id::bytes_precede(b.1, a.1) {
        bytes_precede_transitive(a.1, b.1, a.1);
    }
    if crate::id::bytes_precede(a.1, b.1) && crate::id::bytes_precede(b.1, c.1) {
        bytes_precede_transitive(a.1, b.1, c.1);
    }
    if crate::id::bytes_precede(a.1, c.1) && crate::id::bytes_precede(c.1, a.1) {
        bytes_precede_transitive(a.1, c.1, a.1);
    }
}

proof fn paths_chain(a: Seq<ScopedNode>, b: Seq<ScopedNode>, c: Seq<ScopedNode>, at: int)
    requires
        0 <= at <= a.len(),
        at <= b.len(),
        at <= c.len(),
    ensures
        of_paths(b, a, at) == flipped(of_paths(a, b, at)),
        follows(of_paths(a, b, at), of_paths(b, c, at), of_paths(a, c, at)),
    decreases a.len() - at,
{
    if at < a.len() && at < b.len() {
        let x = (a[at].source, a[at].id@);
        let y = (b[at].source, b[at].id@);
        a[at].id.length();
        b[at].id.length();
        if at < c.len() {
            let z = (c[at].source, c[at].id@);
            c[at].id.length();
            handles_chain(x, y, z);
            paths_chain(a, b, c, at + 1);
        } else {
            handles_chain(x, y, x);
            paths_chain(a, b, a, at + 1);
        }
    }
}

pub proof fn lists_chain(a: Seq<QueryModel>, b: Seq<QueryModel>, c: Seq<QueryModel>, at: int)
    requires
        0 <= at <= a.len(),
        at <= b.len(),
        at <= c.len(),
    ensures
        of_lists(b, a, at) == flipped(of_lists(a, b, at)),
        follows(of_lists(a, b, at), of_lists(b, c, at), of_lists(a, c, at)),
    decreases a, a.len() - at,
{
    if at < a.len() && at < b.len() {
        if at < c.len() {
            order_is_total(a[at], b[at], c[at]);
            lists_chain(a, b, c, at + 1);
        } else {
            order_is_total(a[at], b[at], a[at]);
            lists_chain(a, b, a, at + 1);
        }
    }
}

/// The order of values is total: comparing the other way round gives the other relation,
/// and what comes before, or compares as the same, does so through any third value.
pub proof fn order_is_total(a: QueryModel, b: QueryModel, c: QueryModel)
    ensures
        compared(b, a) == flipped(compared(a, b)),
        follows(compared(a, b), compared(b, c), compared(a, c)),
    decreases a, 0int,
{
    match (a, b) {
        (QueryModel::Text(x), QueryModel::Text(y)) => {
            let z = if c is Text {
                c->Text_0
            } else {
                x
            };
            texts_chain(x, y, z);
        },
        (QueryModel::List(x), QueryModel::List(y)) => {
            let z = if c is List {
                c->List_0
            } else {
                x
            };
            lists_chain(x, y, z, 0);
        },
        (QueryModel::Node(x), QueryModel::Node(y)) => {
            let z = if c is Node {
                c->Node_0
            } else {
                x
            };
            x.id.length();
            y.id.length();
            z.id.length();
            handles_chain((x.source, x.id@), (y.source, y.id@), (z.source, z.id@));
        },
        (QueryModel::Relationship(x), QueryModel::Relationship(y)) => {
            let z = if c is Relationship {
                c->Relationship_0
            } else {
                x
            };
            x.id.length();
            y.id.length();
            z.id.length();
            handles_chain((x.source, x.id@), (y.source, y.id@), (z.source, z.id@));
        },
        (QueryModel::Path { nodes: x, .. }, QueryModel::Path { nodes: y, .. }) => {
            let z = if c is Path {
                c->nodes
            } else {
                x
            };
            paths_chain(x, y, z, 0);
        },
        _ => {},
    }
}

/// Equal values compare as the same, so removing duplicates never keeps two values that `=`
/// calls equal.
pub proof fn equal_values_compare_as_same(a: QueryModel, b: QueryModel)
    requires
        crate::value::equal(a, b),
    ensures
        compared(a, b) == Relation::Same,
    decreases a, 0int,
{
    match (a, b) {
        (QueryModel::List(x), QueryModel::List(y)) => {
            equal_lists_compare_as_same(x, y, 0);
        },
        _ => {
            if a.is_number() && b.is_number() {
            } else {
                order_is_total(a, a, a);
            }
        },
    }
}

proof fn equal_lists_compare_as_same(x: Seq<QueryModel>, y: Seq<QueryModel>, at: int)
    requires
        x.len() == y.len(),
        0 <= at <= x.len(),
        crate::value::lists_equal(x, y, at),
    ensures
        of_lists(x, y, at) == Relation::Same,
    decreases x, x.len() - at,
{
    if at < x.len() {
        equal_values_compare_as_same(x[at], y[at]);
        equal_lists_compare_as_same(x, y, at + 1);
    }
}

// -- Keys --------------------------------------------------------------------------

/// One value of a key, and whether it goes down.
pub struct SortPart {
    /// Whether larger values come first.
    pub descending: bool,
    /// The value.
    pub value: QueryValue,
}

/// How one value of two keys compares.
pub open spec fn of_parts(left: (bool, QueryModel), right: (bool, QueryModel)) -> Relation {
    if left.0 != right.0 {
        if right.0 {
            Relation::Below
        } else {
            Relation::Above
        }
    } else if left.0 {
        flipped(compared(left.1, right.1))
    } else {
        compared(left.1, right.1)
    }
}

/// How two keys compare, from `at` on.
pub open spec fn of_keys(
    left: Seq<(bool, QueryModel)>,
    right: Seq<(bool, QueryModel)>,
    at: int,
) -> Relation
    decreases left.len() - at,
{
    if at < 0 || at >= left.len() || at >= right.len() {
        of_amounts(left.len() as int, right.len() as int)
    } else {
        match of_parts(left[at], right[at]) {
            Relation::Same => of_keys(left, right, at + 1),
            other => other,
        }
    }
}

impl View for SortPart {
    type V = (bool, QueryModel);

    open spec fn view(&self) -> (bool, QueryModel) {
        (self.descending, self.value@)
    }
}

proof fn parts_chain(a: (bool, QueryModel), b: (bool, QueryModel), c: (bool, QueryModel))
    ensures
        of_parts(b, a) == flipped(of_parts(a, b)),
        follows(of_parts(a, b), of_parts(b, c), of_parts(a, c)),
{
    order_is_total(a.1, b.1, c.1);
    order_is_total(c.1, b.1, a.1);
    order_is_total(b.1, c.1, a.1);
    order_is_total(a.1, c.1, b.1);
}

pub proof fn keys_chain(
    a: Seq<(bool, QueryModel)>,
    b: Seq<(bool, QueryModel)>,
    c: Seq<(bool, QueryModel)>,
    at: int,
)
    requires
        0 <= at <= a.len(),
        at <= b.len(),
        at <= c.len(),
    ensures
        of_keys(b, a, at) == flipped(of_keys(a, b, at)),
        follows(of_keys(a, b, at), of_keys(b, c, at), of_keys(a, c, at)),
    decreases a.len() - at,
{
    if at < a.len() && at < b.len() {
        if at < c.len() {
            parts_chain(a[at], b[at], c[at]);
            keys_chain(a, b, c, at + 1);
        } else {
            parts_chain(a[at], b[at], a[at]);
            keys_chain(a, b, a, at + 1);
        }
    }
}

/// How two keys compare.
pub fn compare_keys(left: &Vec<SortPart>, right: &Vec<SortPart>) -> (relation: Relation)
    ensures
        relation == of_keys(views(left@), views(right@), 0),
{
    let ghost a = views(left@);
    let ghost b = views(right@);
    let mut at: usize = 0;
    while at < left.len() && at < right.len()
        invariant
            at <= left@.len(),
            at <= right@.len(),
            a == views(left@),
            b == views(right@),
            of_keys(a, b, 0) == of_keys(a, b, at as int),
        decreases left@.len() - at,
    {
        assert(a[at as int] == left@[at as int]@ && b[at as int] == right@[at as int]@);
        let one = &left[at];
        let other = &right[at];
        let relation = if one.descending != other.descending {
            if other.descending {
                Relation::Below
            } else {
                Relation::Above
            }
        } else if one.descending {
            flip(one.value.relation(&other.value))
        } else {
            one.value.relation(&other.value)
        };
        match relation {
            Relation::Same => {}
            _ => {
                return relation;
            }
        }
        at = at + 1;
    }
    if left.len() < right.len() {
        Relation::Below
    } else if left.len() > right.len() {
        Relation::Above
    } else {
        Relation::Same
    }
}

/// Something with the key it is sorted by.
pub struct Keyed<P> {
    /// The key.
    pub key: Vec<SortPart>,
    /// What has the key.
    pub payload: P,
}

/// Something with the key it is sorted by.
pub struct KeyedModel<P> {
    /// The key.
    pub key: Seq<(bool, QueryModel)>,
    /// What has the key.
    pub payload: P,
}

impl<P: View> View for Keyed<P> {
    type V = KeyedModel<P::V>;

    open spec fn view(&self) -> KeyedModel<P::V> {
        KeyedModel { key: views(self.key@), payload: self.payload@ }
    }
}

impl<P: View> Ordered for Keyed<P> {
    open spec fn before(left: KeyedModel<P::V>, right: KeyedModel<P::V>) -> bool {
        of_keys(left.key, right.key, 0) == Relation::Below
    }

    proof fn before_is_asymmetric(left: KeyedModel<P::V>, right: KeyedModel<P::V>) {
        keys_chain(left.key, right.key, left.key, 0);
    }

    proof fn before_is_ranked(
        first: KeyedModel<P::V>,
        second: KeyedModel<P::V>,
        third: KeyedModel<P::V>,
    ) {
        keys_chain(first.key, second.key, third.key, 0);
        keys_chain(second.key, first.key, first.key, 0);
        keys_chain(third.key, second.key, first.key, 0);
        keys_chain(third.key, first.key, first.key, 0);
    }

    fn comes_before(&self, other: &Self) -> (answer: bool) {
        match compare_keys(&self.key, &other.key) {
            Relation::Below => true,
            _ => false,
        }
    }
}

// -- Telling rows apart ------------------------------------------------------------

/// Whether a row compares as the same as one of the first `count` rows.
pub open spec fn seen(rows: Seq<Seq<QueryModel>>, count: int, row: Seq<QueryModel>) -> bool
    decreases count,
{
    count > 0 && (of_lists(rows[count - 1], row, 0) == Relation::Same || seen(
        rows,
        count - 1,
        row,
    ))
}

} // verus!
