//! Ledger operations: translate a host invocation — caller identity,
//! message payload, and a clock reading — into a store call.
//!
//! The host supplies the author token (already authenticated) and the
//! current time; this module never reads a clock itself.

use vstd::prelude::*;
use crate::errors::CapacityError;
use crate::errors::CapacityExceededError;
use crate::ledger::Entry;
use crate::ledger::EntryModel;
use crate::ledger::Ledger;
use crate::ledger::AUTHOR_BYTES;
use crate::ledger::spec_entry_size;
use crate::ledger::spec_ledger_size;
use crate::MIN_CAPACITY_BYTES;

verus! {

/// Allocate and zero a new ledger instance.  Delegates to the store's
/// `allocate`.  Single-shot initialization per persisted slot is a
/// host-level concern; re-initializing an existing slot is not guarded
/// against here.
pub fn initialize(capacity_bytes: usize) -> (r: Result<Ledger, CapacityError>)
    ensures
        r is Ok <==> capacity_bytes >= MIN_CAPACITY_BYTES,
        r is Ok ==> ({
            let l = r->Ok_0;
            &&& l.wf()
            &&& l@.count == 0
            &&& l@.entries == Seq::<EntryModel>::empty()
            &&& l@.capacity == capacity_bytes
        }),
{
    Ledger::allocate(capacity_bytes)
}

/// Build an entry from the caller's identity token, the message
/// payload, and the timestamp read from the host's clock, then attempt
/// to append it.  A `CapacityExceededError` is propagated unchanged
/// and leaves the ledger exactly as it was.
pub fn append_message(
    ledger: &mut Ledger,
    author: Vec<u8>,
    message: Vec<u8>,
    timestamp: i64,
) -> (r: Result<(), CapacityExceededError>)
    requires
        old(ledger).wf(),
        author@.len() == AUTHOR_BYTES,
    ensures
        final(ledger).wf(),
        ({
            let e = EntryModel { author: author@, message: message@, timestamp };
            &&& (r is Ok <==> spec_ledger_size(old(ledger)@) + spec_entry_size(e)
                <= old(ledger)@.capacity)
            &&& (r is Ok ==> final(ledger)@.count == old(ledger)@.count + 1)
            &&& (r is Ok ==> final(ledger)@.entries == old(ledger)@.entries.push(e))
            &&& (r is Ok ==> final(ledger)@.capacity == old(ledger)@.capacity)
            &&& (r is Err ==> final(ledger)@ == old(ledger)@)
        }),
{
    let entry = Entry { author, message, timestamp };
    let msg_len: usize = entry.message.len();
    proof {
        assert(msg_len <= u64::MAX);
    }
    ledger.try_append(entry)
}

} // verus!
