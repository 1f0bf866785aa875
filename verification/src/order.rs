//! Stable sorting.

use crate::text::precedes;
use crate::text::precedes_irreflexive;
use crate::text::precedes_total;
use crate::text::precedes_transitive;
use crate::text::views;
use vstd::prelude::*;
use vstd::seq_lib::*;

verus! {

/// A value that is ordered by what it says.
pub trait Ordered: View + Sized {
    /// Whether one value comes before another.
    spec fn before(left: Self::V, right: Self::V) -> bool;

    /// No value comes both before and behind another.
    proof fn before_is_asymmetric(left: Self::V, right: Self::V)
        requires
            Self::before(left, right),
        ensures
            !Self::before(right, left),
    ;

    /// Not coming before is transitive.
    proof fn before_is_ranked(first: Self::V, second: Self::V, third: Self::V)
        requires
            !Self::before(second, first),
            !Self::before(third, second),
        ensures
            !Self::before(third, first),
    ;

    /// Whether this value comes before another.
    fn comes_before(&self, other: &Self) -> (answer: bool)
        ensures
            answer == Self::before(self@, other@),
    ;
}

/// Where an item goes among the first `count` items: behind the last one that does not
/// come behind it.
pub open spec fn place<T: Ordered>(items: Seq<T::V>, count: int, item: T::V) -> int
    decreases count,
{
    if count <= 0 {
        0
    } else if T::before(item, items[count - 1]) {
        place::<T>(items, count - 1, item)
    } else {
        count
    }
}

/// The items in order. Items of which neither comes before the other keep their order.
pub open spec fn sorted<T: Ordered>(items: Seq<T::V>) -> Seq<T::V>
    decreases items.len(),
{
    if items.len() == 0 {
        items
    } else {
        let rest = sorted::<T>(items.drop_last());
        rest.insert(place::<T>(rest, rest.len() as int, items.last()), items.last())
    }
}

/// Whether no item comes before one that stands in front of it.
pub open spec fn in_order<T: Ordered>(items: Seq<T::V>) -> bool {
    forall|i: int, j: int|
        0 <= i < j < items.len() ==> !T::before(#[trigger] items[j], #[trigger] items[i])
}

/// A place lies within the items.
pub proof fn place_bounds<T: Ordered>(items: Seq<T::V>, count: int, item: T::V)
    requires
        0 <= count <= items.len(),
    ensures
        0 <= place::<T>(items, count, item) <= count,
    decreases count,
{
    if count > 0 && T::before(item, items[count - 1]) {
        place_bounds::<T>(items, count - 1, item);
    }
}

/// An item comes before everything behind its place, and nothing in front of its place
/// comes behind it.
pub proof fn place_splits<T: Ordered>(items: Seq<T::V>, count: int, item: T::V)
    requires
        0 <= count <= items.len(),
        in_order::<T>(items),
    ensures
        forall|i: int|
            place::<T>(items, count, item) <= i < count ==> T::before(item, #[trigger] items[i]),
        forall|i: int|
            0 <= i < place::<T>(items, count, item) ==> !T::before(item, #[trigger] items[i]),
    decreases count,
{
    if count > 0 {
        if T::before(item, items[count - 1]) {
            place_splits::<T>(items, count - 1, item);
        } else {
            assert forall|i: int| 0 <= i < count implies !T::before(item, #[trigger] items[i]) by {
                if i < count - 1 {
                    T::before_is_ranked(items[i], items[count - 1], item);
                }
            }
        }
    }
}

/// Sorting keeps the number of items.
pub proof fn sorted_length<T: Ordered>(items: Seq<T::V>)
    ensures
        sorted::<T>(items).len() == items.len(),
    decreases items.len(),
{
    if items.len() > 0 {
        sorted_length::<T>(items.drop_last());
        let rest = sorted::<T>(items.drop_last());
        place_bounds::<T>(rest, rest.len() as int, items.last());
    }
}

/// Sorting puts the items in order.
pub proof fn sorted_is_in_order<T: Ordered>(items: Seq<T::V>)
    ensures
        in_order::<T>(sorted::<T>(items)),
    decreases items.len(),
{
    if items.len() > 0 {
        sorted_is_in_order::<T>(items.drop_last());
        let rest = sorted::<T>(items.drop_last());
        let at = place::<T>(rest, rest.len() as int, items.last());
        place_bounds::<T>(rest, rest.len() as int, items.last());
        place_splits::<T>(rest, rest.len() as int, items.last());
        let all = sorted::<T>(items);
        assert forall|i: int, j: int| 0 <= i < j < all.len() implies !T::before(
            #[trigger] all[j],
            #[trigger] all[i],
        ) by {
            if i == at {
                assert(all[j] == rest[j - 1]);
                assert(T::before(items.last(), rest[j - 1]));
                T::before_is_asymmetric(items.last(), rest[j - 1]);
            } else if j == at {
                assert(all[i] == rest[i]);
            } else {
                let left = if i < at {
                    i
                } else {
                    i - 1
                };
                let right = if j < at {
                    j
                } else {
                    j - 1
                };
                assert(all[i] == rest[left] && all[j] == rest[right]);
            }
        }
    }
}

/// Sorting keeps the items.
pub proof fn sorted_keeps_items<T: Ordered>(items: Seq<T::V>)
    ensures
        sorted::<T>(items).to_multiset() == items.to_multiset(),
    decreases items.len(),
{
    broadcast use group_to_multiset_ensures;

    if items.len() > 0 {
        sorted_keeps_items::<T>(items.drop_last());
        let rest = sorted::<T>(items.drop_last());
        let at = place::<T>(rest, rest.len() as int, items.last());
        place_bounds::<T>(rest, rest.len() as int, items.last());
        assert(items =~= items.drop_last().push(items.last()));
        to_multiset_insert(rest, at, items.last());
    }
}

/// Sorting leaves alone what is in order.
pub proof fn sorted_is_stable<T: Ordered>(items: Seq<T::V>)
    requires
        in_order::<T>(items),
    ensures
        sorted::<T>(items) == items,
    decreases items.len(),
{
    if items.len() > 0 {
        let front = items.drop_last();
        assert(in_order::<T>(front)) by {
            assert forall|i: int, j: int| 0 <= i < j < front.len() implies !T::before(
                #[trigger] front[j],
                #[trigger] front[i],
            ) by {
                assert(front[j] == items[j] && front[i] == items[i]);
            }
        }
        sorted_is_stable::<T>(front);
        if front.len() > 0 {
            assert(!T::before(items[items.len() - 1], items[items.len() - 2]));
            assert(front[front.len() - 1] == items[items.len() - 2]);
        }
        assert(place::<T>(front, front.len() as int, items.last()) == front.len());
        assert(front.insert(front.len() as int, items.last()) =~= items);
    }
}

/// Sorting twice is sorting once.
pub proof fn sorted_twice<T: Ordered>(items: Seq<T::V>)
    ensures
        sorted::<T>(sorted::<T>(items)) == sorted::<T>(items),
{
    sorted_is_in_order::<T>(items);
    sorted_is_stable::<T>(sorted::<T>(items));
}

proof fn place_is<T: Ordered>(items: Seq<T::V>, count: int, item: T::V, at: int)
    requires
        0 <= at <= count <= items.len(),
        at > 0 ==> !T::before(item, items[at - 1]),
        forall|k: int| at <= k < count ==> T::before(item, #[trigger] items[k]),
    ensures
        place::<T>(items, count, item) == at,
    decreases count,
{
    if count > at {
        assert(T::before(item, items[count - 1]));
        place_is::<T>(items, count - 1, item, at);
    }
}

proof fn insertions_commute<T: Ordered>(items: Seq<T::V>, first: T::V, second: T::V)
    requires
        in_order::<T>(items),
        T::before(second, first),
    ensures
        ({
            let one = items.insert(place::<T>(items, items.len() as int, first), first);
            let two = items.insert(place::<T>(items, items.len() as int, second), second);
            one.insert(place::<T>(one, one.len() as int, second), second) == two.insert(
                place::<T>(two, two.len() as int, first),
                first,
            )
        }),
{
    let n = items.len() as int;
    let a = place::<T>(items, n, first);
    let b = place::<T>(items, n, second);
    place_bounds::<T>(items, n, first);
    place_bounds::<T>(items, n, second);
    place_splits::<T>(items, n, first);
    place_splits::<T>(items, n, second);
    T::before_is_asymmetric(second, first);
    assert forall|k: int| a <= k < n implies T::before(second, #[trigger] items[k]) by {
        assert(T::before(first, items[k]));
        T::before_is_asymmetric(first, items[k]);
        if !T::before(second, items[k]) {
            T::before_is_ranked(first, items[k], second);
        }
    }
    assert(b <= a) by {
        if b > a {
            assert(T::before(second, items[b - 1]));
        }
    }
    let one = items.insert(a, first);
    let two = items.insert(b, second);
    assert forall|k: int| b <= k < one.len() implies T::before(second, #[trigger] one[k]) by {
        if k < a {
            assert(one[k] == items[k]);
        } else if k > a {
            assert(one[k] == items[k - 1]);
        }
    }
    if b > 0 {
        assert(one[b - 1] == items[b - 1]);
    }
    place_is::<T>(one, n + 1, second, b);
    assert forall|k: int| a + 1 <= k < two.len() implies T::before(first, #[trigger] two[k]) by {
        assert(two[k] == items[k - 1]);
    }
    if a > b {
        assert(two[a] == items[a - 1]);
    }
    place_is::<T>(two, n + 1, first, a + 1);
    assert(one.insert(b, second) =~= two.insert(a + 1, first));
}

proof fn neighbours_swap<T: Ordered>(items: Seq<T::V>, at: int)
    requires
        0 <= at < items.len() - 1,
        T::before(items[at + 1], items[at]),
    ensures
        sorted::<T>(items) == sorted::<T>(
            items.update(at, items[at + 1]).update(at + 1, items[at]),
        ),
    decreases items.len(),
{
    let other = items.update(at, items[at + 1]).update(at + 1, items[at]);
    let n = items.len() as int;
    if at + 2 < n {
        let shorter = items.drop_last();
        neighbours_swap::<T>(shorter, at);
        assert(other.drop_last() =~= shorter.update(at, shorter[at + 1]).update(
            at + 1,
            shorter[at],
        ));
        assert(other.last() == items.last());
    } else {
        let front = items.take(at);
        sorted_is_in_order::<T>(front);
        insertions_commute::<T>(sorted::<T>(front), items[at], items[at + 1]);
        assert(items.drop_last().drop_last() =~= front);
        assert(other.drop_last().drop_last() =~= front);
        assert(items.drop_last().last() == items[at] && items.last() == items[at + 1]);
        assert(other.drop_last().last() == items[at + 1] && other.last() == items[at]);
        reveal_with_fuel(sorted, 3);
    }
}

/// Where an item stands among others does not matter for their order, as far as those behind
/// it all come before it.
pub proof fn item_moves_to_the_end<T: Ordered>(items: Seq<T::V>, at: int, item: T::V)
    requires
        0 <= at <= items.len(),
        forall|k: int| at <= k < items.len() ==> T::before(#[trigger] items[k], item),
    ensures
        sorted::<T>(items.insert(at, item)) == sorted::<T>(items.push(item)),
    decreases items.len() - at,
{
    if at == items.len() {
        assert(items.insert(at, item) =~= items.push(item));
    } else {
        let here = items.insert(at, item);
        assert(here[at] == item && here[at + 1] == items[at]);
        neighbours_swap::<T>(here, at);
        assert(here.update(at, here[at + 1]).update(at + 1, here[at]) =~= items.insert(
            at + 1,
            item,
        ));
        item_moves_to_the_end::<T>(items, at + 1, item);
    }
}

/// An item that comes before no other goes to the end.
pub proof fn last_goes_last<T: Ordered>(items: Seq<T::V>, item: T::V)
    requires
        forall|k: int| 0 <= k < items.len() ==> !T::before(item, #[trigger] items[k]),
    ensures
        sorted::<T>(items.push(item)) == sorted::<T>(items).push(item),
{
    let rest = sorted::<T>(items);
    assert(items.push(item).drop_last() =~= items);
    sorted_length::<T>(items);
    if rest.len() > 0 {
        assert(rest.contains(rest.last()));
        sorted_contains::<T>(items, rest.last());
        let k = choose|k: int| 0 <= k < items.len() && items[k] == rest.last();
        assert(!T::before(item, items[k]));
    }
    assert(rest.insert(rest.len() as int, item) =~= rest.push(item));
}

/// Sorted items are the items: each is one of them, and each of them is there.
pub proof fn sorted_contains<T: Ordered>(items: Seq<T::V>, item: T::V)
    ensures
        sorted::<T>(items).contains(item) <==> items.contains(item),
{
    broadcast use group_to_multiset_ensures;

    sorted_keeps_items::<T>(items);
    assert(sorted::<T>(items).contains(item) <==> sorted::<T>(items).to_multiset().count(item) > 0);
    assert(items.contains(item) <==> items.to_multiset().count(item) > 0);
}

// -- Sorting -----------------------------------------------------------------------

/// The models of borrowed values.
pub open spec fn shown<T: View>(items: Seq<&T>) -> Seq<T::V> {
    Seq::new(items.len(), |i: int| items[i]@)
}

/// The items in order, borrowed.
pub fn in_sequence<T: Ordered>(items: &Vec<T>) -> (found: Vec<&T>)
    ensures
        shown(found@) == sorted::<T>(views(items@)),
{
    let ghost models = views(items@);
    let mut found: Vec<&T> = Vec::new();
    let mut at: usize = 0;
    assert(shown(found@) =~= models.take(0));
    assert(sorted::<T>(models.take(0)) =~= models.take(0));
    while at < items.len()
        invariant
            at <= items@.len(),
            found@.len() == at,
            models == views(items@),
            shown(found@) == sorted::<T>(models.take(at as int)),
        decreases items@.len() - at,
    {
        let ghost rest = shown(found@);
        let ghost model = models[at as int];
        let mut slot: usize = found.len();
        while slot > 0 && items[at].comes_before(found[slot - 1])
            invariant
                slot <= found@.len(),
                at < items@.len(),
                models == views(items@),
                rest == shown(found@),
                model == models[at as int],
                place::<T>(rest, rest.len() as int, model) == place::<T>(rest, slot as int, model),
            decreases slot,
        {
            assert(rest[slot - 1] == found@[slot - 1]@);
            slot = slot - 1;
        }
        proof {
            if slot > 0 {
                assert(rest[slot - 1] == found@[slot - 1]@);
            }
            assert(models.take(at + 1).drop_last() =~= models.take(at as int));
        }
        found.insert(slot, &items[at]);
        at = at + 1;
        assert(shown(found@) =~= rest.insert(slot as int, model));
    }
    assert(models.take(models.len() as int) =~= models);
    found
}

/// Sorts a list.
pub fn sort<T: Ordered>(items: Vec<T>) -> (found: Vec<T>)
    ensures
        views(found@) == sorted::<T>(views(items@)),
{
    let ghost models = views(items@);
    let mut left = items;
    let mut turned: Vec<T> = Vec::new();
    while left.len() > 0
        invariant
            models == views(items@),
            left@.len() + turned@.len() == models.len(),
            views(left@) =~= models.take(left@.len() as int),
            views(turned@) =~= models.skip(left@.len() as int).reverse(),
        decreases left@.len(),
    {
        let ghost before = left@;
        let ghost earlier = turned@;
        match left.pop() {
            Some(item) => {
                assert(before.last()@ == models[before.len() - 1]) by {
                    assert(views(before)[before.len() - 1] == models[before.len() - 1]);
                }
                turned.push(item);
                assert(views(left@) =~= models.take(left@.len() as int)) by {
                    assert forall|i: int| 0 <= i < left@.len() implies views(left@)[i]
                        == models[i] by {
                        assert(views(before)[i] == models[i]);
                    }
                }
                assert(views(turned@) =~= models.skip(left@.len() as int).reverse()) by {
                    assert forall|i: int| 0 <= i < turned@.len() implies views(turned@)[i]
                        == models.skip(left@.len() as int).reverse()[i] by {
                        if i < earlier.len() {
                            assert(views(earlier)[i] == models.skip(before.len() as int).reverse()[i]);
                        }
                    }
                }
            }
            None => {}
        }
    }
    let mut found: Vec<T> = Vec::new();
    let ghost mut at: int = 0;
    assert(views(found@) =~= models.take(0));
    assert(sorted::<T>(models.take(0)) =~= models.take(0));
    while turned.len() > 0
        invariant
            0 <= at <= models.len(),
            found@.len() == at,
            turned@.len() == models.len() - at,
            views(turned@) =~= models.skip(at).reverse(),
            views(found@) == sorted::<T>(models.take(at)),
        decreases turned@.len(),
    {
        let ghost rest = views(found@);
        let ghost before = turned@;
        let ghost model = models[at];
        match turned.pop() {
            Some(item) => {
                assert(item@ == model) by {
                    assert(views(before)[before.len() - 1] == models.skip(at).reverse()[before.len()
                        - 1]);
                }
                let mut slot: usize = found.len();
                while slot > 0 && item.comes_before(&found[slot - 1])
                    invariant
                        slot <= found@.len(),
                        item@ == model,
                        rest == views(found@),
                        place::<T>(rest, rest.len() as int, model) == place::<T>(
                            rest,
                            slot as int,
                            model,
                        ),
                    decreases slot,
                {
                    assert(rest[slot - 1] == found@[slot - 1]@);
                    slot = slot - 1;
                }
                proof {
                    if slot > 0 {
                        assert(rest[slot - 1] == found@[slot - 1]@);
                    }
                    assert(models.take(at + 1).drop_last() =~= models.take(at));
                }
                found.insert(slot, item);
                assert(views(found@) =~= rest.insert(slot as int, model));
                assert(views(turned@) =~= models.skip(at + 1).reverse()) by {
                    assert forall|i: int| 0 <= i < turned@.len() implies views(turned@)[i]
                        == models.skip(at + 1).reverse()[i] by {
                        assert(views(before)[i] == models.skip(at).reverse()[i]);
                    }
                }
                proof {
                    at = at + 1;
                }
            }
            None => {}
        }
    }
    assert(models.take(models.len() as int) =~= models);
    found
}

// -- Keys made of texts ------------------------------------------------------------

/// Whether one list of texts comes before another of the same length, from `at` on.
pub open spec fn keys_before(left: Seq<Seq<char>>, right: Seq<Seq<char>>, at: int) -> bool
    decreases left.len() - at,
{
    if at < 0 || at >= left.len() {
        false
    } else {
        precedes(left[at], right[at]) || (left[at] == right[at] && keys_before(left, right, at + 1))
    }
}

/// Texts: not preceding is transitive.
pub proof fn texts_are_ranked(a: Seq<char>, b: Seq<char>, c: Seq<char>)
    requires
        !precedes(b, a),
        !precedes(c, b),
    ensures
        !precedes(c, a),
        a == c ==> a == b,
{
    precedes_total(a, b);
    precedes_total(b, c);
    precedes_irreflexive(a);
    precedes_irreflexive(c);
    if precedes(c, a) {
        if a == b {
        } else if b == c {
        } else {
            precedes_transitive(a, b, c);
            precedes_transitive(a, c, a);
        }
    }
    if a == c && a != b {
        precedes_transitive(a, b, c);
    }
}

/// Texts: preceding is asymmetric.
pub proof fn texts_are_asymmetric(a: Seq<char>, b: Seq<char>)
    requires
        precedes(a, b),
    ensures
        !precedes(b, a),
        a != b,
{
    precedes_irreflexive(a);
    if precedes(b, a) {
        precedes_transitive(a, b, a);
    }
}

/// Keys: coming before is asymmetric.
pub proof fn keys_are_asymmetric(left: Seq<Seq<char>>, right: Seq<Seq<char>>, at: int)
    requires
        left.len() == right.len(),
        keys_before(left, right, at),
    ensures
        !keys_before(right, left, at),
    decreases left.len() - at,
{
    if 0 <= at < left.len() {
        if precedes(left[at], right[at]) {
            texts_are_asymmetric(left[at], right[at]);
        } else {
            precedes_irreflexive(left[at]);
            keys_are_asymmetric(left, right, at + 1);
        }
    }
}

/// Keys: not coming before is transitive.
pub proof fn keys_are_ranked(a: Seq<Seq<char>>, b: Seq<Seq<char>>, c: Seq<Seq<char>>, at: int)
    requires
        a.len() == b.len() == c.len(),
        !keys_before(b, a, at),
        !keys_before(c, b, at),
    ensures
        !keys_before(c, a, at),
    decreases a.len() - at,
{
    if 0 <= at < a.len() {
        texts_are_ranked(a[at], b[at], c[at]);
        if a[at] == c[at] {
            keys_are_ranked(a, b, c, at + 1);
        }
    }
}

/// Of two different keys one comes before the other.
pub proof fn keys_are_total(left: Seq<Seq<char>>, right: Seq<Seq<char>>, at: int)
    requires
        left.len() == right.len(),
        0 <= at <= left.len(),
        !keys_before(left, right, at),
        !keys_before(right, left, at),
    ensures
        forall|i: int| at <= i < left.len() ==> left[i] == right[i],
    decreases left.len() - at,
{
    if at < left.len() {
        precedes_total(left[at], right[at]);
        keys_are_total(left, right, at + 1);
    }
}

} // verus!
