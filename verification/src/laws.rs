//! Laws of the ledger store, stated over the mathematical models and
//! proved once and for all.

use vstd::prelude::*;
use vstd::bytes::*;
use crate::ledger::EntryModel;
use crate::ledger::LedgerModel;
use crate::ledger::entry_wf;
use crate::ledger::ledger_wf;
use crate::ledger::spec_decode;
use crate::ledger::spec_decode_entry;
use crate::ledger::spec_decode_entries;
use crate::ledger::spec_encode;
use crate::ledger::spec_encode_entry;
use crate::ledger::spec_encode_entries;
use crate::ledger::spec_entry_size;
use crate::ledger::spec_ledger_size;
use crate::ledger::spec_serialized;
use crate::ledger::lemma_encode_entries_len;
use crate::ledger::lemma_entries_size_snoc;
use crate::ledger::lemma_entries_size_lower_bound;

verus! {

/// Casting a timestamp through its unsigned bit pattern loses nothing.
proof fn lemma_i64_bits_round_trip(x: i64)
    ensures
        (x as u64) as i64 == x,
{
    assert((x as u64) as i64 == x) by (bit_vector);
}

/// Decoding the bytes of one well-formed entry yields that entry and
/// leaves exactly the trailing bytes.
proof fn lemma_decode_encode_entry(e: EntryModel, rest: Seq<u8>)
    requires
        entry_wf(e),
    ensures
        spec_decode_entry(spec_encode_entry(e) + rest) == Some((e, rest)),
{
    lemma_auto_spec_u64_to_from_le_bytes();
    let mlen = e.message.len() as int;
    let lenb = spec_u64_to_le_bytes(e.message.len() as u64);
    let tsb = spec_u64_to_le_bytes(e.timestamp as u64);
    let b = spec_encode_entry(e) + rest;
    assert(b.len() == 48 + mlen + rest.len());
    assert(b.subrange(32, 40) =~= lenb);
    assert(spec_u64_from_le_bytes(b.subrange(32, 40)) == e.message.len() as u64);
    assert(b.subrange(0, 32) =~= e.author);
    assert(b.subrange(40, 40 + mlen) =~= e.message);
    assert(b.subrange(40 + mlen, 48 + mlen) =~= tsb);
    assert(b.skip(48 + mlen) =~= rest);
    lemma_i64_bits_round_trip(e.timestamp);
    assert(spec_decode_entry(b)->Some_0.0 =~= e);
    assert(spec_decode_entry(b) == Some((e, rest)));
}

/// Decoding the bytes of a well-formed entry sequence yields that
/// sequence and leaves exactly the trailing bytes.
proof fn lemma_decode_encode_entries(es: Seq<EntryModel>, rest: Seq<u8>)
    requires
        forall|i: int| 0 <= i < es.len() ==> entry_wf(#[trigger] es[i]),
    ensures
        spec_decode_entries(spec_encode_entries(es) + rest, es.len()) == Some((es, rest)),
    decreases es.len(),
{
    if es.len() == 0 {
        assert(spec_encode_entries(es) + rest =~= rest);
        assert(Seq::<EntryModel>::empty() =~= es);
    } else {
        let e = es[0];
        let tail = es.drop_first();
        assert forall|i: int| 0 <= i < tail.len() implies entry_wf(#[trigger] tail[i]) by {
            assert(tail[i] == es[i + 1]);
        }
        let b = spec_encode_entries(es) + rest;
        let tail_bytes = spec_encode_entries(tail) + rest;
        assert(b =~= spec_encode_entry(e) + tail_bytes);
        lemma_decode_encode_entry(e, tail_bytes);
        lemma_decode_encode_entries(tail, rest);
        assert(seq![e] + tail =~= es);
        assert(spec_decode_entries(b, es.len()) == Some((es, rest)));
    }
}

/// Round-trip law: serializing any well-formed ledger and
/// deserializing the resulting region yields the very same ledger —
/// count, entries, and capacity alike.  In particular this holds for a
/// freshly allocated ledger.
pub proof fn lemma_serialize_deserialize_round_trip(l: LedgerModel)
    requires
        ledger_wf(l),
    ensures
        spec_decode(spec_serialized(l)) == Some(l),
{
    lemma_auto_spec_u64_to_from_le_bytes();
    lemma_encode_entries_len(l.entries);
    let enc = spec_encode(l);
    let pad = Seq::<u8>::new((l.capacity - enc.len()) as nat, |i: int| 0u8);
    let b = spec_serialized(l);
    assert(b.len() == l.capacity);
    assert(b.subrange(0, 8) =~= spec_u64_to_le_bytes(l.count));
    assert(spec_u64_from_le_bytes(b.subrange(0, 8)) == l.count);
    assert(b.skip(8) =~= spec_encode_entries(l.entries) + pad);
    lemma_decode_encode_entries(l.entries, pad);
    assert(spec_decode(b)->Some_0 =~= l);
    assert(spec_decode(b) == Some(l));
}

/// Whether one more entry still fits the fixed capacity.
pub open spec fn spec_fits(l: LedgerModel, e: EntryModel) -> bool {
    spec_ledger_size(l) + spec_entry_size(e) <= l.capacity
}

/// One admitted append transition on the model.
pub open spec fn spec_append(l: LedgerModel, e: EntryModel) -> LedgerModel {
    LedgerModel { count: (l.count + 1) as u64, entries: l.entries.push(e), capacity: l.capacity }
}

/// The `try_append` transition on the model: the resulting ledger and
/// whether the entry was admitted.
pub open spec fn spec_try_append(l: LedgerModel, e: EntryModel) -> (LedgerModel, bool) {
    if spec_fits(l, e) {
        (spec_append(l, e), true)
    } else {
        (l, false)
    }
}

/// A sequence of appends, applied first to last.
pub open spec fn spec_append_all(l: LedgerModel, es: Seq<EntryModel>) -> LedgerModel
    decreases es.len(),
{
    if es.len() == 0 {
        l
    } else {
        spec_append_all(spec_append(l, es[0]), es.drop_first())
    }
}

/// Each append fits the ledger as it stands when its turn comes.
pub open spec fn spec_all_fit(l: LedgerModel, es: Seq<EntryModel>) -> bool
    decreases es.len(),
{
    es.len() > 0 ==> spec_fits(l, es[0]) && spec_all_fit(spec_append(l, es[0]), es.drop_first())
}

/// Order-preservation law: after a sequence of appends that each fit
/// when applied, the count has grown by exactly the number of appends
/// and the entries are the old entries followed by the appended ones,
/// in call order.  Starting from a fresh ledger the entries equal the
/// appended sequence itself.
pub proof fn lemma_append_order(l: LedgerModel, es: Seq<EntryModel>)
    requires
        ledger_wf(l),
        spec_all_fit(l, es),
        forall|i: int| 0 <= i < es.len() ==> entry_wf(#[trigger] es[i]),
    ensures
        ledger_wf(spec_append_all(l, es)),
        spec_append_all(l, es).count == l.count + es.len(),
        spec_append_all(l, es).entries == l.entries + es,
        spec_append_all(l, es).capacity == l.capacity,
    decreases es.len(),
{
    if es.len() == 0 {
        assert(l.entries + es =~= l.entries);
    } else {
        let e = es[0];
        let tail = es.drop_first();
        let l1 = spec_append(l, e);
        lemma_entries_size_lower_bound(l.entries);
        lemma_entries_size_snoc(l.entries, e);
        assert(ledger_wf(l1));
        assert forall|i: int| 0 <= i < tail.len() implies entry_wf(#[trigger] tail[i]) by {
            assert(tail[i] == es[i + 1]);
        }
        lemma_append_order(l1, tail);
        assert(l.entries + es =~= l.entries.push(e) + tail);
    }
}

/// Idempotence of failure: an entry that does not fit is rejected, the
/// ledger model is unchanged, the serialized region is bit-identical,
/// and retrying the same append any number of times rejects it again
/// without effect.
pub proof fn lemma_failed_append_changes_nothing(l: LedgerModel, e: EntryModel)
    requires
        ledger_wf(l),
        !spec_fits(l, e),
    ensures
        spec_try_append(l, e) == (l, false),
        spec_serialized(spec_try_append(l, e).0) == spec_serialized(l),
        spec_try_append(spec_try_append(l, e).0, e) == spec_try_append(l, e),
{
}

} // verus!
