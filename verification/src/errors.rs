//! Error values returned by the ledger operations.
//!
//! Every failure is surfaced as an explicit `Result` value; no error is
//! swallowed or converted to a default.

use vstd::prelude::*;

verus! {

/// The requested allocation is too small to hold even an empty ledger.
#[derive(Clone, Copy, Debug, PartialEq, Eq)]
pub struct CapacityError;

/// An append would push the serialized size past the fixed capacity.
/// The ledger is left unchanged when this is returned.
#[derive(Clone, Copy, Debug, PartialEq, Eq)]
pub struct CapacityExceededError;

/// The stored bytes do not decode to a consistent count/entries pair.
#[derive(Clone, Copy, Debug, PartialEq, Eq)]
pub struct CorruptLedgerError;

} // verus!
