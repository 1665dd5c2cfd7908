//! A fixed-capacity, append-only greeting ledger.
//!
//! The ledger records immutable entries (author token, message bytes,
//! timestamp) under a hard serialized-size ceiling fixed at allocation
//! time.  The binary layout is a little-endian count field followed by
//! the entries in append order; encoding and decoding round-trip
//! exactly, and every append either commits in full or leaves the
//! ledger untouched.

pub mod errors;
pub mod laws;
pub mod ledger;
pub mod ops;

use vstd::prelude::*;

verus! {

/// Serialized size of an empty ledger: the count field alone.
pub const MIN_CAPACITY_BYTES: usize = 8;

} // verus!
