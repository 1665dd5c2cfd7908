//! The ledger store: the persisted aggregate, its binary layout, and
//! the operations that enforce the capacity contract.
//!
//! Layout (little-endian, deterministic): an 8-byte unsigned count,
//! then each entry in append order as a 32-byte author token, an 8-byte
//! unsigned message length, the message bytes, and an 8-byte signed
//! timestamp.  The region handed back by `serialize` is always exactly
//! `capacity_bytes` long; the encoding is followed by zero padding.

use vstd::prelude::*;
use vstd::bytes::*;
use vstd::slice::slice_subrange;
use vstd::slice::slice_to_vec;
use crate::errors::CapacityError;
use crate::errors::CapacityExceededError;
use crate::errors::CorruptLedgerError;
use crate::MIN_CAPACITY_BYTES;

verus! {

/// Width in bytes of the author identity token.
pub const AUTHOR_BYTES: usize = 32;

/// Mathematical model of one entry.
#[verifier::ext_equal]
pub struct EntryModel {
    pub author: Seq<u8>,
    pub message: Seq<u8>,
    pub timestamp: i64,
}

/// Mathematical model of the ledger.
#[verifier::ext_equal]
pub struct LedgerModel {
    pub count: u64,
    pub entries: Seq<EntryModel>,
    pub capacity: usize,
}

/// An entry is well formed when its author token has the fixed width
/// and its message length fits the 8-byte length prefix.
pub open spec fn entry_wf(e: EntryModel) -> bool {
    &&& e.author.len() == AUTHOR_BYTES
    &&& e.message.len() <= u64::MAX
}

/// Serialized size of one entry: author, length prefix, message bytes,
/// timestamp.
pub open spec fn spec_entry_size(e: EntryModel) -> int {
    e.author.len() + 16 + e.message.len() as int
}

/// Serialized size of a sequence of entries.
pub open spec fn spec_entries_size(es: Seq<EntryModel>) -> int
    decreases es.len(),
{
    if es.len() == 0 {
        0
    } else {
        spec_entry_size(es[0]) + spec_entries_size(es.drop_first())
    }
}

/// Serialized size of the whole ledger: count field plus entries.
pub open spec fn spec_ledger_size(l: LedgerModel) -> int {
    MIN_CAPACITY_BYTES + spec_entries_size(l.entries)
}

/// The ledger invariant: the count always equals the number of stored
/// entries, every entry is well formed, and the serialized size never
/// exceeds the fixed capacity.
pub open spec fn ledger_wf(l: LedgerModel) -> bool {
    &&& l.count == l.entries.len()
    &&& forall|i: int| 0 <= i < l.entries.len() ==> entry_wf(#[trigger] l.entries[i])
    &&& spec_ledger_size(l) <= l.capacity
}

/// Byte encoding of one entry.
pub open spec fn spec_encode_entry(e: EntryModel) -> Seq<u8> {
    e.author + spec_u64_to_le_bytes(e.message.len() as u64) + e.message
        + spec_u64_to_le_bytes(e.timestamp as u64)
}

/// Byte encoding of a sequence of entries, in order.
pub open spec fn spec_encode_entries(es: Seq<EntryModel>) -> Seq<u8>
    decreases es.len(),
{
    if es.len() == 0 {
        Seq::<u8>::empty()
    } else {
        spec_encode_entry(es[0]) + spec_encode_entries(es.drop_first())
    }
}

/// Byte encoding of the ledger: count field, then the entries.
pub open spec fn spec_encode(l: LedgerModel) -> Seq<u8> {
    spec_u64_to_le_bytes(l.count) + spec_encode_entries(l.entries)
}

/// The full serialized region: the encoding padded with zero bytes up
/// to the fixed capacity.
pub open spec fn spec_serialized(l: LedgerModel) -> Seq<u8> {
    spec_encode(l) + Seq::<u8>::new((l.capacity - spec_encode(l).len()) as nat, |i: int| 0u8)
}

/// Spec-level decoder for one entry at the head of `b`: fails when the
/// bytes run out before the fixed-width fields or before the end of
/// the message that the length prefix declares.
pub open spec fn spec_decode_entry(b: Seq<u8>) -> Option<(EntryModel, Seq<u8>)> {
    if b.len() < 40 {
        None
    } else {
        let mlen = spec_u64_from_le_bytes(b.subrange(32, 40)) as int;
        if b.len() < 48 + mlen {
            None
        } else {
            Some(
                (
                    EntryModel {
                        author: b.subrange(0, 32),
                        message: b.subrange(40, 40 + mlen),
                        timestamp: spec_u64_from_le_bytes(b.subrange(40 + mlen, 48 + mlen)) as i64,
                    },
                    b.skip(48 + mlen),
                ),
            )
        }
    }
}

/// Spec-level decoder for `n` consecutive entries.
pub open spec fn spec_decode_entries(b: Seq<u8>, n: nat) -> Option<(Seq<EntryModel>, Seq<u8>)>
    decreases n,
{
    if n == 0 {
        Some((Seq::<EntryModel>::empty(), b))
    } else {
        match spec_decode_entry(b) {
            None => None,
            Some(p) => match spec_decode_entries(p.1, (n - 1) as nat) {
                None => None,
                Some(q) => Some((seq![p.0] + q.0, q.1)),
            },
        }
    }
}

/// Spec-level decoder for a whole region: the count field, then as
/// many entries as the count declares.  Trailing bytes are the
/// region's padding and are ignored.
pub open spec fn spec_decode(b: Seq<u8>) -> Option<LedgerModel> {
    if b.len() < 8 {
        None
    } else {
        let count = spec_u64_from_le_bytes(b.subrange(0, 8));
        match spec_decode_entries(b.skip(8), count as nat) {
            None => None,
            Some(q) => Some(LedgerModel { count, entries: q.0, capacity: b.len() as usize }),
        }
    }
}

/// Prefix already decoded, placed before whatever a decoder returns.
pub open spec fn opt_prepend(pre: Seq<EntryModel>, o: Option<(Seq<EntryModel>, Seq<u8>)>) -> Option<
    (Seq<EntryModel>, Seq<u8>),
> {
    match o {
        None => None,
        Some(q) => Some((pre + q.0, q.1)),
    }
}

pub proof fn lemma_encode_entry_len(e: EntryModel)
    ensures
        spec_encode_entry(e).len() == spec_entry_size(e),
{
    lemma_auto_spec_u64_to_from_le_bytes();
}

pub proof fn lemma_encode_entries_len(es: Seq<EntryModel>)
    ensures
        spec_encode_entries(es).len() == spec_entries_size(es),
    decreases es.len(),
{
    if es.len() > 0 {
        lemma_encode_entry_len(es[0]);
        lemma_encode_entries_len(es.drop_first());
    }
}

/// Appending one entry adds exactly that entry's bytes at the end.
pub proof fn lemma_encode_entries_snoc(es: Seq<EntryModel>, e: EntryModel)
    ensures
        spec_encode_entries(es.push(e)) == spec_encode_entries(es) + spec_encode_entry(e),
    decreases es.len(),
{
    if es.len() == 0 {
        assert(es.push(e).drop_first() =~= Seq::<EntryModel>::empty());
        assert(es.push(e)[0] == e);
        assert(spec_encode_entries(es.push(e).drop_first()) =~= Seq::<u8>::empty());
        assert(spec_encode_entries(es.push(e)) =~= spec_encode_entry(e) + Seq::<u8>::empty());
        assert(spec_encode_entries(es) =~= Seq::<u8>::empty());
        assert(spec_encode_entries(es.push(e)) =~= spec_encode_entries(es) + spec_encode_entry(e));
    } else {
        assert(es.push(e).drop_first() =~= es.drop_first().push(e));
        assert(es.push(e)[0] == es[0]);
        lemma_encode_entries_snoc(es.drop_first(), e);
        let a = spec_encode_entry(es[0]);
        let b = spec_encode_entries(es.drop_first());
        let c = spec_encode_entry(e);
        assert(spec_encode_entries(es.push(e)) == a + (b + c));
        assert(a + (b + c) =~= (a + b) + c);
        assert(spec_encode_entries(es) == a + b);
        assert(spec_encode_entries(es.push(e)) =~= spec_encode_entries(es) + spec_encode_entry(e));
    }
}

pub proof fn lemma_entries_size_snoc(es: Seq<EntryModel>, e: EntryModel)
    ensures
        spec_entries_size(es.push(e)) == spec_entries_size(es) + spec_entry_size(e),
{
    lemma_encode_entries_len(es.push(e));
    lemma_encode_entries_len(es);
    lemma_encode_entries_snoc(es, e);
    lemma_encode_entry_len(e);
}

pub proof fn lemma_entries_size_take_snoc(es: Seq<EntryModel>, i: int)
    requires
        0 <= i < es.len(),
    ensures
        spec_entries_size(es.take(i + 1)) == spec_entries_size(es.take(i)) + spec_entry_size(
            es[i],
        ),
{
    assert(es.take(i + 1) =~= es.take(i).push(es[i]));
    lemma_entries_size_snoc(es.take(i), es[i]);
}

/// The size of a prefix never exceeds the size of the whole sequence.
pub proof fn lemma_entries_size_take_le(es: Seq<EntryModel>, i: int)
    requires
        0 <= i <= es.len(),
    ensures
        spec_entries_size(es.take(i)) <= spec_entries_size(es),
    decreases es.len() - i,
{
    if i == es.len() {
        assert(es.take(i) =~= es);
    } else {
        lemma_entries_size_take_snoc(es, i);
        lemma_entries_size_take_le(es, i + 1);
    }
}

/// Every well-formed entry occupies at least 48 serialized bytes.
pub proof fn lemma_entries_size_lower_bound(es: Seq<EntryModel>)
    requires
        forall|i: int| 0 <= i < es.len() ==> entry_wf(#[trigger] es[i]),
    ensures
        48 * es.len() <= spec_entries_size(es),
    decreases es.len(),
{
    if es.len() > 0 {
        assert forall|i: int| 0 <= i < es.drop_first().len() implies entry_wf(
            #[trigger] es.drop_first()[i],
        ) by {
            assert(es.drop_first()[i] == es[i + 1]);
        }
        lemma_entries_size_lower_bound(es.drop_first());
    }
}

/// One greeting record: an opaque fixed-width author token, the
/// message bytes, and a timestamp in seconds supplied by the host's
/// clock.  Entries are immutable once appended.
#[derive(Clone, Debug, PartialEq, Eq)]
pub struct Entry {
    pub author: Vec<u8>,
    pub message: Vec<u8>,
    pub timestamp: i64,
}

impl View for Entry {
    type V = EntryModel;

    open spec fn view(&self) -> EntryModel {
        EntryModel { author: self.author@, message: self.message@, timestamp: self.timestamp }
    }
}

impl Entry {
    pub open spec fn wf(&self) -> bool {
        entry_wf(self@)
    }
}

/// Views of a sequence of entries.
pub open spec fn entry_views(es: Seq<Entry>) -> Seq<EntryModel> {
    es.map_values(|e: Entry| e@)
}

pub proof fn lemma_entry_views_push(es: Seq<Entry>, e: Entry)
    ensures
        entry_views(es.push(e)) == entry_views(es).push(e@),
{
    assert(entry_views(es.push(e)) =~= entry_views(es).push(e@));
}

/// The persisted aggregate: a count, the ordered entries, and the
/// capacity fixed at allocation time.
pub struct Ledger {
    count: u64,
    entries: Vec<Entry>,
    capacity: usize,
}

impl View for Ledger {
    type V = LedgerModel;

    closed spec fn view(&self) -> LedgerModel {
        LedgerModel {
            count: self.count,
            entries: entry_views(self.entries@),
            capacity: self.capacity,
        }
    }
}

impl Ledger {
    pub open spec fn wf(&self) -> bool {
        ledger_wf(self@)
    }

    /// The number of entries currently stored.
    pub fn count(&self) -> (c: u64)
        ensures
            c == self@.count,
    {
        self.count
    }

    /// The fixed capacity of the backing region, in bytes.
    pub fn capacity_bytes(&self) -> (c: usize)
        ensures
            c == self@.capacity,
    {
        self.capacity
    }

    /// Read one stored entry.
    pub fn entry(&self, i: usize) -> (e: &Entry)
        requires
            i < self@.entries.len(),
        ensures
            e@ == self@.entries[i as int],
    {
        &self.entries[i]
    }

    /// Produce a new, empty ledger backed by a region of exactly
    /// `capacity_bytes`.  Fails when the region cannot hold even the
    /// count field of an empty ledger.
    pub fn allocate(capacity_bytes: usize) -> (r: Result<Ledger, CapacityError>)
        ensures
            r is Ok <==> capacity_bytes >= MIN_CAPACITY_BYTES,
            r is Ok ==> ({
                let l = r->Ok_0;
                &&& l.wf()
                &&& l@.count == 0
                &&& l@.entries == Seq::<EntryModel>::empty()
                &&& l@.capacity == capacity_bytes
            }),
    {
        if capacity_bytes < MIN_CAPACITY_BYTES {
            Err(CapacityError)
        } else {
            let l = Ledger { count: 0u64, entries: Vec::new(), capacity: capacity_bytes };
            proof {
                assert(l@.entries =~= Seq::<EntryModel>::empty());
            }
            Ok(l)
        }
    }

    /// The exact serialized size of the ledger's current contents,
    /// computed from the entries rather than tracked in a counter.
    pub fn serialized_size(&self) -> (n: u128)
        requires
            self.wf(),
        ensures
            n == spec_ledger_size(self@),
    {
        let ghost es = self@.entries;
        let mut total: u128 = 8;
        let mut i: usize = 0;
        proof {
            assert(es.take(0) =~= Seq::<EntryModel>::empty());
            lemma_entries_size_take_le(es, 0);
        }
        while i < self.entries.len()
            invariant
                self.wf(),
                es == self@.entries,
                i <= self.entries.len(),
                es.len() == self.entries.len(),
                total == 8 + spec_entries_size(es.take(i as int)),
                total <= self@.capacity,
            decreases self.entries.len() - i,
        {
            proof {
                lemma_entries_size_take_snoc(es, i as int);
                lemma_entries_size_take_le(es, i + 1);
                assert(entry_wf(es[i as int]));
            }
            let msg_len = self.entries[i].message.len();
            total = total + 48 + (msg_len as u128);
            i = i + 1;
        }
        proof {
            assert(es.take(es.len() as int) =~= es);
        }
        total
    }

    /// Attempt to append one entry.  The hypothetical post-append
    /// serialized size is computed first; the append commits exactly
    /// when that size still fits the fixed capacity, and otherwise the
    /// ledger is left unchanged.
    pub fn try_append(&mut self, entry: Entry) -> (r: Result<(), CapacityExceededError>)
        requires
            old(self).wf(),
            entry.wf(),
        ensures
            final(self).wf(),
            r is Ok <==> spec_ledger_size(old(self)@) + spec_entry_size(entry@) <= old(
                self,
            )@.capacity,
            r is Ok ==> final(self)@.count == old(self)@.count + 1 && final(self)@.entries == old(
                self,
            )@.entries.push(entry@) && final(self)@.capacity == old(self)@.capacity,
            r is Err ==> final(self)@ == old(self)@,
    {
        let current = self.serialized_size();
        let needed = current + 48 + (entry.message.len() as u128);
        if needed > (self.capacity as u128) {
            return Err(CapacityExceededError);
        }
        proof {
            lemma_entries_size_lower_bound(old(self)@.entries);
            lemma_entries_size_snoc(old(self)@.entries, entry@);
            lemma_entry_views_push(self.entries@, entry);
        }
        self.entries.push(entry);
        self.count = self.count + 1;
        Ok(())
    }

    /// Serialize the ledger into its backing region: the deterministic
    /// encoding followed by zero padding, exactly `capacity_bytes`
    /// bytes long.
    pub fn serialize(&self) -> (out: Vec<u8>)
        requires
            self.wf(),
        ensures
            out@ == spec_serialized(self@),
            out@.len() == self@.capacity,
    {
        let ghost es = self@.entries;
        let mut out: Vec<u8> = u64_to_le_bytes(self.count);
        proof {
            assert(es.take(0) =~= Seq::<EntryModel>::empty());
            assert(out@ =~= spec_u64_to_le_bytes(self@.count) + spec_encode_entries(es.take(0)));
        }
        let mut i: usize = 0;
        while i < self.entries.len()
            invariant
                self.wf(),
                es == self@.entries,
                i <= self.entries.len(),
                es.len() == self.entries.len(),
                out@ == spec_u64_to_le_bytes(self@.count) + spec_encode_entries(es.take(i as int)),
            decreases self.entries.len() - i,
        {
            let e = &self.entries[i];
            proof {
                assert(entry_wf(es[i as int]));
                assert(e@ == es[i as int]);
            }
            let ghost pre = out@;
            let mut j: usize = 0;
            proof {
                assert(pre + e.author@.take(0) =~= pre);
            }
            while j < AUTHOR_BYTES
                invariant
                    j <= AUTHOR_BYTES,
                    e.author@.len() == AUTHOR_BYTES,
                    out@ == pre + e.author@.take(j as int),
                decreases AUTHOR_BYTES - j,
            {
                out.push(e.author[j]);
                proof {
                    assert((pre + e.author@.take(j as int)).push(e.author@[j as int]) =~= pre
                        + e.author@.take(j + 1));
                }
                j = j + 1;
            }
            proof {
                assert(e.author@.take(AUTHOR_BYTES as int) =~= e.author@);
            }
            let mut lenb = u64_to_le_bytes(e.message.len() as u64);
            out.append(&mut lenb);
            let ghost pre_msg = out@;
            let mut j2: usize = 0;
            proof {
                assert(pre_msg + e.message@.take(0) =~= pre_msg);
            }
            while j2 < e.message.len()
                invariant
                    j2 <= e.message@.len(),
                    out@ == pre_msg + e.message@.take(j2 as int),
                decreases e.message@.len() - j2,
            {
                out.push(e.message[j2]);
                proof {
                    assert((pre_msg + e.message@.take(j2 as int)).push(e.message@[j2 as int]) =~=
                        pre_msg + e.message@.take(j2 + 1));
                }
                j2 = j2 + 1;
            }
            proof {
                assert(e.message@.take(e.message@.len() as int) =~= e.message@);
            }
            let mut tsb = u64_to_le_bytes(e.timestamp as u64);
            out.append(&mut tsb);
            proof {
                assert(es.take(i + 1) =~= es.take(i as int).push(es[i as int]));
                lemma_encode_entries_snoc(es.take(i as int), es[i as int]);
                assert(out@ =~= spec_u64_to_le_bytes(self@.count) + spec_encode_entries(
                    es.take(i + 1),
                ));
            }
            i = i + 1;
        }
        proof {
            assert(es.take(es.len() as int) =~= es);
            lemma_auto_spec_u64_to_from_le_bytes();
            lemma_encode_entries_len(es);
        }
        let ghost enc = spec_encode(self@);
        proof {
            assert(out@ =~= enc);
            assert(enc + Seq::<u8>::new(0, |k: int| 0u8) =~= enc);
        }
        while out.len() < self.capacity
            invariant
                enc == spec_encode(self@),
                enc.len() <= out@.len(),
                out@.len() <= self@.capacity,
                self@.capacity == self.capacity,
                out@ == enc + Seq::<u8>::new((out@.len() - enc.len()) as nat, |k: int| 0u8),
            decreases self@.capacity - out@.len(),
        {
            out.push(0u8);
            proof {
                assert(out@ =~= enc + Seq::<u8>::new((out@.len() - enc.len()) as nat, |k: int| 0u8));
            }
        }
        proof {
            assert(out@ =~= spec_serialized(self@));
        }
        out
    }

    /// Decode one entry starting at `pos`.
    fn decode_entry(bytes: &Vec<u8>, pos: usize) -> (r: Result<(Entry, usize), CorruptLedgerError>)
        requires
            pos <= bytes@.len(),
        ensures
            r is Ok ==> ({
                let e = r->Ok_0.0;
                let p2 = r->Ok_0.1;
                &&& pos < p2 <= bytes@.len()
                &&& e.wf()
                &&& p2 == pos + spec_entry_size(e@)
                &&& spec_decode_entry(bytes@.skip(pos as int)) == Some(
                    (e@, bytes@.skip(p2 as int)),
                )
            }),
            r is Err ==> spec_decode_entry(bytes@.skip(pos as int)) is None,
    {
        let ghost b = bytes@.skip(pos as int);
        let n = bytes.len();
        if n - pos < 40 {
            return Err(CorruptLedgerError);
        }
        let author = slice_to_vec(slice_subrange(bytes.as_slice(), pos, pos + 32));
        let mlen_u64 = u64_from_le_bytes(slice_subrange(bytes.as_slice(), pos + 32, pos + 40));
        proof {
            assert(bytes@.subrange(pos as int + 32, pos as int + 40) =~= b.subrange(32, 40));
        }
        let rem = n - (pos + 40);
        if (mlen_u64 as u128) + 8 > (rem as u128) {
            return Err(CorruptLedgerError);
        }
        let mlen = mlen_u64 as usize;
        let message = slice_to_vec(slice_subrange(bytes.as_slice(), pos + 40, pos + 40 + mlen));
        let ts_u64 = u64_from_le_bytes(
            slice_subrange(bytes.as_slice(), pos + 40 + mlen, pos + 48 + mlen),
        );
        let p2 = pos + 48 + mlen;
        let e = Entry { author, message, timestamp: ts_u64 as i64 };
        proof {
            assert(bytes@.subrange(pos as int, pos as int + 32) =~= b.subrange(0, 32));
            assert(bytes@.subrange(pos as int + 40, pos as int + 40 + mlen as int) =~= b.subrange(
                40,
                40 + mlen as int,
            ));
            assert(bytes@.subrange(pos as int + 40 + mlen as int, pos as int + 48 + mlen as int)
                =~= b.subrange(40 + mlen as int, 48 + mlen as int));
            assert(bytes@.skip(p2 as int) =~= b.skip(48 + mlen as int));
            assert(e@ =~= spec_decode_entry(b)->Some_0.0);
            assert(spec_decode_entry(b) == Some((e@, bytes@.skip(p2 as int))));
        }
        Ok((e, p2))
    }

    /// Rebuild a ledger from a serialized region.  The inverse of
    /// `serialize`: fails when the declared count cannot be matched by
    /// entries decoded from the remaining bytes, or when a length
    /// prefix runs past the buffer bound.  The capacity of the decoded
    /// ledger is the length of the region.
    pub fn deserialize(bytes: &Vec<u8>) -> (r: Result<Ledger, CorruptLedgerError>)
        ensures
            r is Ok ==> spec_decode(bytes@) == Some(r->Ok_0@) && r->Ok_0.wf(),
            r is Err ==> spec_decode(bytes@) is None,
    {
        let n = bytes.len();
        if n < 8 {
            return Err(CorruptLedgerError);
        }
        let count = u64_from_le_bytes(slice_subrange(bytes.as_slice(), 0, 8));
        let mut entries: Vec<Entry> = Vec::new();
        let mut pos: usize = 8;
        let mut k: u64 = 0;
        proof {
            assert(entry_views(entries@) =~= Seq::<EntryModel>::empty());
            let x = spec_decode_entries(bytes@.skip(8), count as nat);
            if x is Some {
                assert(Seq::<EntryModel>::empty() + x->Some_0.0 =~= x->Some_0.0);
            }
        }
        while k < count
            invariant
                8 <= pos <= bytes@.len(),
                count == spec_u64_from_le_bytes(bytes@.subrange(0, 8)),
                k <= count,
                entries@.len() == k,
                forall|t: int| 0 <= t < entries@.len() ==> entry_wf(
                    #[trigger] entry_views(entries@)[t],
                ),
                8 + spec_entries_size(entry_views(entries@)) == pos,
                opt_prepend(
                    entry_views(entries@),
                    spec_decode_entries(bytes@.skip(pos as int), (count - k) as nat),
                ) == spec_decode_entries(bytes@.skip(8), count as nat),
            decreases count - k,
        {
            match Self::decode_entry(bytes, pos) {
                Err(_) => {
                    proof {
                        assert(spec_decode_entries(bytes@.skip(pos as int), (count - k) as nat)
                            is None);
                        assert(spec_decode_entries(bytes@.skip(8), count as nat) is None);
                    }
                    return Err(CorruptLedgerError);
                },
                Ok(pair) => {
                    let (e, p2) = pair;
                    proof {
                        let m = (count - k) as nat;
                        let rest = spec_decode_entries(bytes@.skip(p2 as int), (m - 1) as nat);
                        if rest is Some {
                            assert(entry_views(entries@).push(e@) + rest->Some_0.0 =~= entry_views(
                                entries@,
                            ) + (seq![e@] + rest->Some_0.0));
                        }
                        lemma_entry_views_push(entries@, e);
                        lemma_entries_size_snoc(entry_views(entries@), e@);
                    }
                    entries.push(e);
                    pos = p2;
                    k = k + 1;
                },
            }
        }
        proof {
            assert(entry_views(entries@) + Seq::<EntryModel>::empty() =~= entry_views(entries@));
        }
        let l = Ledger { count, entries, capacity: n };
        proof {
            assert(spec_decode(bytes@) == Some(l@));
        }
        Ok(l)
    }
}

} // verus!
