//! Values by name.

use crate::copies::Copied;
use crate::text::same;
use crate::value::copy_value;
use crate::value::QueryModel;
use crate::value::QueryValue;
use vstd::prelude::*;

verus! {

/// Values by name: what a row has bound, or what a query was given.
///
/// A value that is put in under a name takes the place of the one before it.
#[derive(Debug)]
pub struct Values {
    entries: Vec<(String, QueryValue)>,
}

/// Parameter values a query was given, keyed by name without the `$`.
pub type Parameters = Values;

/// What a row has bound, keyed by variable name.
pub type Bindings = Values;

/// The values the entries hold: the last entry of a name counts.
pub open spec fn entry_map(entries: Seq<(String, QueryValue)>) -> Map<Seq<char>, QueryModel>
    decreases entries.len(),
{
    if entries.len() == 0 {
        Map::empty()
    } else {
        entry_map(entries.drop_last()).insert(entries.last().0@, entries.last().1@)
    }
}

/// What a map holds under a name.
pub open spec fn found_in(values: Map<Seq<char>, QueryModel>, name: Seq<char>) -> Option<
    QueryModel,
> {
    if values.contains_key(name) {
        Some(values[name])
    } else {
        None
    }
}

impl View for Values {
    type V = Map<Seq<char>, QueryModel>;

    closed spec fn view(&self) -> Map<Seq<char>, QueryModel> {
        entry_map(self.entries@)
    }
}

impl Values {
    /// No values.
    pub fn new() -> (made: Self)
        ensures
            made@ == Map::<Seq<char>, QueryModel>::empty(),
    {
        Values { entries: Vec::new() }
    }

    /// The value under a name.
    pub fn get(&self, name: &str) -> (found: Option<&QueryValue>)
        ensures
            match found {
                Some(value) => found_in(self@, name@) == Some(value@),
                None => found_in(self@, name@) is None,
            },
    {
        let mut at: usize = self.entries.len();
        assert(self.entries@.take(at as int) =~= self.entries@);
        while at > 0
            invariant
                at <= self.entries@.len(),
                found_in(self@, name@) == found_in(
                    entry_map(self.entries@.take(at as int)),
                    name@,
                ),
            decreases at,
        {
            assert(self.entries@.take(at as int).drop_last() =~= self.entries@.take(at - 1));
            assert(self.entries@.take(at as int).last() == self.entries@[at - 1]);
            at = at - 1;
            if same(self.entries[at].0.as_str(), name) {
                return Some(&self.entries[at].1);
            }
        }
        assert(self.entries@.take(0) =~= Seq::empty());
        None
    }

    /// Puts a value under a name.
    pub fn insert(&mut self, name: String, value: QueryValue)
        ensures
            final(self)@ == old(self)@.insert(name@, value@),
    {
        let ghost before = self.entries@;
        self.entries.push((name, value));
        assert(self.entries@.drop_last() =~= before);
    }
}

impl Default for Values {
    fn default() -> (made: Self)
        ensures
            made@ == Map::<Seq<char>, QueryModel>::empty(),
    {
        Values::new()
    }
}

proof fn same_entries(left: Seq<(String, QueryValue)>, right: Seq<(String, QueryValue)>)
    requires
        left.len() == right.len(),
        forall|i: int|
            0 <= i < left.len() ==> (#[trigger] left[i]).0@ == right[i].0@ && left[i].1@
                == right[i].1@,
    ensures
        entry_map(left) == entry_map(right),
    decreases left.len(),
{
    if left.len() > 0 {
        same_entries(left.drop_last(), right.drop_last());
    }
}

impl Clone for Values {
    fn clone(&self) -> (copy: Self)
        ensures
            copy@ == self@,
    {
        let mut entries: Vec<(String, QueryValue)> = Vec::new();
        let mut at: usize = 0;
        while at < self.entries.len()
            invariant
                at <= self.entries@.len(),
                entries@.len() == at,
                forall|i: int|
                    0 <= i < at ==> (#[trigger] entries@[i]).0@ == self.entries@[i].0@
                        && entries@[i].1@ == self.entries@[i].1@,
            decreases self.entries@.len() - at,
        {
            let pair = &self.entries[at];
            entries.push((pair.0.clone(), copy_value(&pair.1)));
            at = at + 1;
        }
        proof {
            same_entries(entries@, self.entries@);
        }
        Values { entries }
    }
}

impl Copied for Values {
    fn copied(&self) -> (copy: Self) {
        self.clone()
    }
}

} // verus!
