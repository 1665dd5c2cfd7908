use gm_ledger::errors::CapacityError;
use gm_ledger::errors::CapacityExceededError;
use gm_ledger::errors::CorruptLedgerError;
use gm_ledger::ledger::Entry;
use gm_ledger::ledger::Ledger;
use gm_ledger::ops::append_message;
use gm_ledger::ops::initialize;

/// A 32-byte author token starting with the given tag, zero padded.
fn author_token(tag: &[u8]) -> Vec<u8> {
    let mut a = vec![0u8; 32];
    a[..tag.len()].copy_from_slice(tag);
    a
}

#[test]
fn scenario_fresh_ledger_then_one_greeting() {
    let mut l = initialize(1088).unwrap();
    assert_eq!(l.count(), 0);
    assert_eq!(l.capacity_bytes(), 1088);
    let r = append_message(&mut l, author_token(b"U1"), b"gm".to_vec(), 1000);
    assert_eq!(r, Ok(()));
    assert_eq!(l.count(), 1);
    assert_eq!(l.entry(0).author, author_token(b"U1"));
    assert_eq!(l.entry(0).message, b"gm".to_vec());
    assert_eq!(l.entry(0).timestamp, 1000);
}

#[test]
fn scenario_fifty_greetings_in_call_order() {
    // Each "gm" entry serializes to 50 bytes; 8 + 50 * 50 fits exactly.
    let mut l = initialize(2508).unwrap();
    for i in 0..50 {
        let r = append_message(&mut l, author_token(b"U1"), b"gm".to_vec(), 1000 + i);
        assert_eq!(r, Ok(()));
    }
    assert_eq!(l.count(), 50);
    for i in 0..50 {
        assert_eq!(l.entry(i as usize).timestamp, 1000 + i as i64);
        assert_eq!(l.entry(i as usize).message, b"gm".to_vec());
    }
}

#[test]
fn scenario_allocation_below_minimum_overhead() {
    assert!(matches!(initialize(7), Err(CapacityError)));
    assert!(matches!(initialize(0), Err(CapacityError)));
    // The count field alone is the minimum.
    let l = initialize(8).unwrap();
    assert_eq!(l.count(), 0);
}

#[test]
fn scenario_append_exceeding_capacity_by_one_byte() {
    // An empty ledger occupies 8 bytes; an entry occupies 48 plus the
    // message, so a 1033-byte message lands on 1089 = 1088 + 1.
    let mut l = initialize(1088).unwrap();
    let before = l.serialize();
    let r = append_message(&mut l, author_token(b"U1"), vec![b'x'; 1033], 1000);
    assert_eq!(r, Err(CapacityExceededError));
    assert_eq!(l.count(), 0);
    assert_eq!(l.serialize(), before);
}

#[test]
fn boundary_exact_fit_succeeds() {
    // 8 + 48 + 1032 == 1088: landing exactly on the capacity succeeds.
    let mut l = initialize(1088).unwrap();
    let r = append_message(&mut l, author_token(b"U1"), vec![b'x'; 1032], 1000);
    assert_eq!(r, Ok(()));
    assert_eq!(l.count(), 1);
    assert_eq!(l.serialized_size(), 1088);
    // Even an empty message needs 48 more bytes now.
    let r2 = append_message(&mut l, author_token(b"U2"), Vec::new(), 1001);
    assert_eq!(r2, Err(CapacityExceededError));
}

#[test]
fn failed_append_is_idempotent() {
    // 8 + (48 + 4) == 60: the first entry fills the region exactly.
    let mut l = initialize(60).unwrap();
    assert_eq!(append_message(&mut l, author_token(b"U1"), b"gmgm".to_vec(), 1), Ok(()));
    let before = l.serialize();
    for _ in 0..3 {
        let r = append_message(&mut l, author_token(b"U2"), Vec::new(), 2);
        assert_eq!(r, Err(CapacityExceededError));
        assert_eq!(l.count(), 1);
        assert_eq!(l.serialize(), before);
    }
}

#[test]
fn round_trip_of_fresh_ledger() {
    let l = initialize(1088).unwrap();
    let bytes = l.serialize();
    assert_eq!(bytes.len(), 1088);
    let l2 = Ledger::deserialize(&bytes).unwrap();
    assert_eq!(l2.count(), 0);
    assert_eq!(l2.capacity_bytes(), 1088);
}

#[test]
fn round_trip_preserves_entries_and_order() {
    let mut l = initialize(200).unwrap();
    assert_eq!(append_message(&mut l, author_token(b"U1"), b"gm".to_vec(), 11), Ok(()));
    assert_eq!(append_message(&mut l, author_token(b"U2"), b"good morning".to_vec(), -22), Ok(()));
    let bytes = l.serialize();
    assert_eq!(bytes.len(), 200);
    let l2 = Ledger::deserialize(&bytes).unwrap();
    assert_eq!(l2.count(), 2);
    assert_eq!(l2.capacity_bytes(), 200);
    assert_eq!(l2.entry(0), l.entry(0));
    assert_eq!(l2.entry(1), l.entry(1));
    assert_eq!(l2.entry(1).timestamp, -22);
}

#[test]
fn serialized_bytes_match_the_layout_exactly() {
    let mut l = Ledger::allocate(60).unwrap();
    let e = Entry { author: vec![0xAA; 32], message: vec![7, 8], timestamp: 5 };
    assert_eq!(l.try_append(e), Ok(()));
    let bytes = l.serialize();
    let mut expected: Vec<u8> = Vec::new();
    expected.extend_from_slice(&1u64.to_le_bytes()); // count
    expected.extend_from_slice(&[0xAA; 32]); // author
    expected.extend_from_slice(&2u64.to_le_bytes()); // message length
    expected.extend_from_slice(&[7, 8]); // message
    expected.extend_from_slice(&5i64.to_le_bytes()); // timestamp
    expected.extend_from_slice(&[0, 0]); // padding to capacity
    assert_eq!(bytes, expected);
}

#[test]
fn serialized_size_is_computed_exactly() {
    let mut l = Ledger::allocate(500).unwrap();
    assert_eq!(l.serialized_size(), 8);
    assert_eq!(append_message(&mut l, author_token(b"U1"), b"gm".to_vec(), 1), Ok(()));
    assert_eq!(l.serialized_size(), 58);
    assert_eq!(append_message(&mut l, author_token(b"U2"), Vec::new(), 2), Ok(()));
    assert_eq!(l.serialized_size(), 106);
}

#[test]
fn scenario_truncated_region_is_corrupt() {
    let mut l = initialize(60).unwrap();
    assert_eq!(append_message(&mut l, author_token(b"U1"), b"gm".to_vec(), 1000), Ok(()));
    let bytes = l.serialize();
    // Cut the region in the middle of the only entry.
    let truncated = bytes[..30].to_vec();
    assert!(matches!(Ledger::deserialize(&truncated), Err(CorruptLedgerError)));
}

#[test]
fn region_shorter_than_count_field_is_corrupt() {
    assert!(matches!(Ledger::deserialize(&vec![0u8; 7]), Err(CorruptLedgerError)));
    assert!(matches!(Ledger::deserialize(&Vec::new()), Err(CorruptLedgerError)));
}

#[test]
fn declared_count_past_decodable_entries_is_corrupt() {
    // An 8-byte region whose count field claims one entry.
    let l = initialize(8).unwrap();
    let mut bytes = l.serialize();
    bytes[0] = 1;
    assert!(matches!(Ledger::deserialize(&bytes), Err(CorruptLedgerError)));
}

#[test]
fn length_prefix_past_buffer_bound_is_corrupt() {
    let mut l = initialize(100).unwrap();
    assert_eq!(append_message(&mut l, author_token(b"U1"), b"gm".to_vec(), 1), Ok(()));
    let mut bytes = l.serialize();
    // Inflate the message length prefix far past the region.
    bytes[40] = 0xFF;
    assert!(matches!(Ledger::deserialize(&bytes), Err(CorruptLedgerError)));
}

#[test]
fn negative_timestamp_round_trips() {
    let mut l = initialize(100).unwrap();
    assert_eq!(append_message(&mut l, author_token(b"U1"), b"gm".to_vec(), -1234567890), Ok(()));
    let bytes = l.serialize();
    let l2 = Ledger::deserialize(&bytes).unwrap();
    assert_eq!(l2.entry(0).timestamp, -1234567890);
}
