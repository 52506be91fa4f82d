//! The ways in which a request to this library can fail.

use vstd::prelude::*;

verus! {

/// Why an instance could not be filled or solved.
#[derive(Debug, Clone, Copy, PartialEq, Eq)]
pub enum KnapsackError {
    /// The weight list or the profit list does not have exactly `n` entries.
    InvalidInstance,
    /// The lower bound of a range of random values lies above its upper bound.
    InvalidRange,
    /// An order of consideration names an item that the instance does not have.
    IndexOutOfRange,
}

impl KnapsackError {
    /// A sentence that describes the failure.
    pub fn message(&self) -> (text: &'static str)
        ensures
            text@ == self.message_spec(),
    {
        match self {
            KnapsackError::InvalidInstance => "item lists do not match the declared item count",
            KnapsackError::InvalidRange => "lower bound is greater than upper bound",
            KnapsackError::IndexOutOfRange => "item index is out of range",
        }
    }

    /// The text of `message`.
    pub open spec fn message_spec(&self) -> Seq<char> {
        match self {
            KnapsackError::InvalidInstance => "item lists do not match the declared item count"@,
            KnapsackError::InvalidRange => "lower bound is greater than upper bound"@,
            KnapsackError::IndexOutOfRange => "item index is out of range"@,
        }
    }
}

} // verus!
