//! Copies that keep what a value says.

use crate::contribution::Contribution;
use crate::evidence::Evidence;
use crate::link::Link;
use crate::name::Label;
use crate::name::PropertyKey;
use crate::property::PropertyValue;
use crate::text::view_of;
use crate::text::views;
use crate::text::views_push;
use crate::text::NonEmptyText;
use vstd::prelude::*;

verus! {

/// A value that can be copied without changing what it says.
pub trait Copied: View + Sized {
    /// A value that says the same.
    fn copied(&self) -> (copy: Self)
        ensures
            copy@ == self@,
    ;
}

impl Copied for String {
    fn copied(&self) -> (copy: Self) {
        self.clone()
    }
}

impl Copied for NonEmptyText {
    fn copied(&self) -> (copy: Self) {
        self.clone()
    }
}

impl Copied for Label {
    fn copied(&self) -> (copy: Self) {
        self.clone()
    }
}

impl Copied for PropertyKey {
    fn copied(&self) -> (copy: Self) {
        self.clone()
    }
}

impl Copied for PropertyValue {
    fn copied(&self) -> (copy: Self) {
        self.clone()
    }
}

impl Copied for Evidence {
    fn copied(&self) -> (copy: Self) {
        self.clone()
    }
}

impl Copied for Contribution {
    fn copied(&self) -> (copy: Self) {
        self.clone()
    }
}

impl Copied for Link {
    fn copied(&self) -> (copy: Self) {
        self.clone()
    }
}

/// A copy of a list.
pub fn copy_all<T: Copied>(items: &Vec<T>) -> (copy: Vec<T>)
    ensures
        views(copy@) == views(items@),
{
    let mut copy: Vec<T> = Vec::new();
    let mut at: usize = 0;
    while at < items.len()
        invariant
            at <= items@.len(),
            views(copy@) =~= views(items@).take(at as int),
        decreases items@.len() - at,
    {
        let item = items[at].copied();
        proof {
            views_push(copy@, item);
        }
        copy.push(item);
        at = at + 1;
    }
    assert(views(copy@) =~= views(items@));
    copy
}

/// A copy of an optional value.
pub fn copy_option<T: Copied>(item: &Option<T>) -> (copy: Option<T>)
    ensures
        view_of(copy) == view_of(*item),
{
    match item {
        Some(inner) => Some(inner.copied()),
        None => None,
    }
}

/// A copy of a list of plain values.
pub fn copy_plain<T: Copy>(items: &Vec<T>) -> (copy: Vec<T>)
    ensures
        copy@ == items@,
{
    let mut copy: Vec<T> = Vec::new();
    let mut at: usize = 0;
    while at < items.len()
        invariant
            at <= items@.len(),
            copy@ == items@.take(at as int),
        decreases items@.len() - at,
    {
        copy.push(items[at]);
        at = at + 1;
        assert(copy@ =~= items@.take(at as int));
    }
    assert(copy@ =~= items@);
    copy
}

} // verus!
