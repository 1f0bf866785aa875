//! Database generations.
//!
//! A generation is a monotonically increasing counter. Every successful commit advances
//! it. Two files at the same generation with different digests have diverged; neither is
//! newer.

use crate::number::digits_of;
use crate::number::show_unsigned;
use vstd::prelude::*;

verus! {

/// A database generation.
///
/// Any `u64` a container can hold is accepted. Advancing is checked, so it cannot
/// silently wrap back to a generation that has already been committed.
#[derive(Clone, Copy, Debug, PartialEq, Eq, PartialOrd, Ord, Hash, Structural)]
pub struct Generation {
    value: u64,
}

impl View for Generation {
    type V = u64;

    closed spec fn view(&self) -> u64 {
        self.value
    }
}

/// Why a generation could not be produced.
#[derive(Clone, Copy, Debug, PartialEq, Eq, Structural)]
pub enum GenerationError {
    /// The counter reached its maximum, so it cannot advance without wrapping.
    Exhausted,
}

impl GenerationError {
    /// The message this error is shown with.
    pub fn message(&self) -> (text: String)
        ensures
            text@ == "the database generation counter is exhausted"@,
    {
        "the database generation counter is exhausted".to_owned()
    }
}

impl Generation {
    /// The generation of a newly created database.
    pub fn initial() -> (first: Self)
        ensures
            first@ == 1,
    {
        Generation { value: 1 }
    }

    /// Wraps a raw generation value.
    pub fn from_raw(value: u64) -> (made: Self)
        ensures
            made@ == value,
    {
        Generation { value }
    }

    /// The raw generation value.
    pub fn get(self) -> (value: u64)
        ensures
            value == self@,
    {
        self.value
    }

    /// The next generation, or an error where the counter would wrap.
    pub fn next(self) -> (following: Result<Self, GenerationError>)
        ensures
            following is Ok <==> self@ < u64::MAX,
            following matches Ok(generation) ==> generation@ == self@ + 1,
            following matches Err(error) ==> error == GenerationError::Exhausted,
    {
        match self.value.checked_add(1) {
            Some(value) => Ok(Generation { value }),
            None => Err(GenerationError::Exhausted),
        }
    }

    /// The decimal form of the raw value.
    pub fn to_string(&self) -> (text: String)
        ensures
            text@ == digits_of(self@ as nat),
    {
        show_unsigned(self.value)
    }

    /// Two generations with the same raw value are one generation.
    pub proof fn same_value(left: Self, right: Self)
        requires
            left@ == right@,
        ensures
            left == right,
    {
    }
}

} // verus!
