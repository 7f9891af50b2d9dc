//! Why an operation was turned down.
//!
//! An operation that is turned down leaves everything as it was. Two things
//! are no errors at all: an operation on a key that nothing has changes
//! nothing, and a line item that nobody shares adds nothing to what anybody
//! owes.

use vstd::prelude::*;

verus! {

/// The reasons for which an operation is turned down.
#[derive(Clone, Copy, Debug, PartialEq, Eq, Structural)]
pub enum SplitError {
    /// A name was empty or held nothing but whitespace.
    EmptyName,
    /// A price or a tax was below zero.
    NegativeAmount,
    /// An amount, a share or a total is beyond what `Money` can hold.
    AmountOutOfRange,
    /// The key is already taken by another entry of the registry.
    DuplicateKey,
}

} // verus!
