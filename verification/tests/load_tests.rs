//! Tests for loading: fail-closed on anything that is not a whole,
//! canonical serialization.

use kosha::kosha::{Builder, Kosha};
use kosha::packing::{decode, PackedPada};
use kosha::semantics::{Pada, Pratipadika};
use kosha::{DecodeError, KoshaError};

fn avyaya(text: &str) -> Pada {
    Pada::make_avyaya(Pratipadika::new(text.to_string()))
}

fn sample_bytes() -> Vec<u8> {
    let mut builder = Builder::new();
    builder.insert("rama", &avyaya("rama")).expect("insert");
    builder.insert("ramau", &avyaya("ramau")).expect("insert");
    builder.finish().expect("finish")
}

#[test]
fn empty_input_fails_closed() {
    assert_eq!(Kosha::new(&[]).err(), Some(KoshaError::StorageUnavailable));
}

#[test]
fn short_input_fails_closed() {
    assert_eq!(Kosha::new(&[0, 0, 0]).err(), Some(KoshaError::StorageUnavailable));
    assert_eq!(Kosha::new(&[1, 0, 0, 0, 0, 0, 0]).err(), Some(KoshaError::StorageUnavailable));
}

#[test]
fn truncated_input_fails_closed() {
    let bytes = sample_bytes();
    for cut in 0..bytes.len() {
        let err = Kosha::new(&bytes[..cut]).err();
        assert_eq!(err, Some(KoshaError::StorageUnavailable), "cut at {}", cut);
    }
}

#[test]
fn trailing_bytes_fail_closed() {
    let mut bytes = sample_bytes();
    bytes.push(0);
    assert_eq!(Kosha::new(&bytes).err(), Some(KoshaError::StorageUnavailable));
}

#[test]
fn corrupt_count_fails_closed() {
    let mut bytes = sample_bytes();
    // claim one entry more than the data holds
    bytes[0] = bytes[0].wrapping_add(1);
    assert_eq!(Kosha::new(&bytes).err(), Some(KoshaError::StorageUnavailable));
}

#[test]
fn garbage_fails_closed() {
    let bytes: Vec<u8> = (0..64u8).map(|b| b.wrapping_mul(37)).collect();
    assert_eq!(Kosha::new(&bytes).err(), Some(KoshaError::StorageUnavailable));
}

#[test]
fn whole_store_loads_and_answers() {
    let bytes = sample_bytes();
    let kosha = Kosha::new(&bytes).expect("a finished store loads");
    assert!(kosha.contains_key("rama"));
    assert!(kosha.contains_key("ramau"));
    assert!(!kosha.contains_key("ram"));
    let records = kosha.get_all("rama");
    assert_eq!(records.len(), 1);
    assert_eq!(decode(&records[0]).expect("decodes"), avyaya("rama"));
}

// Hand-written serialized bytes: the 64-bit key count, then per key its
// length, its ASCII bytes, its record count, and per record the 32-bit tag
// word, the text length, and the text bytes — everything little-endian.
fn push_u64(out: &mut Vec<u8>, x: u64) {
    out.extend_from_slice(&x.to_le_bytes());
}

fn push_u32(out: &mut Vec<u8>, x: u32) {
    out.extend_from_slice(&x.to_le_bytes());
}

#[test]
fn one_bad_record_does_not_abort_the_others() {
    // a store holding one key with two records: the first has an unknown
    // discriminant, the second is a valid indeclinable
    let mut bytes = Vec::new();
    push_u64(&mut bytes, 1);
    push_u64(&mut bytes, 2);
    bytes.extend_from_slice(b"te");
    push_u64(&mut bytes, 2);
    // record one: discriminant 4 names no variant
    push_u32(&mut bytes, 4);
    push_u64(&mut bytes, 0);
    // record two: an avyaya with stem "te"
    push_u32(&mut bytes, 1 + 1048576);
    push_u64(&mut bytes, 2);
    bytes.extend_from_slice(b"te");

    let kosha = Kosha::new(&bytes).expect("the store itself is well-formed");
    let records = kosha.get_all("te");
    assert_eq!(records.len(), 2);
    assert_eq!(decode(&records[0]), Err(DecodeError::InvalidTag));
    assert_eq!(decode(&records[1]).expect("the good record decodes"), avyaya("te"));
}

#[test]
fn unsorted_keys_fail_closed() {
    let mut bytes = Vec::new();
    push_u64(&mut bytes, 2);
    for key in ["b", "a"] {
        push_u64(&mut bytes, 1);
        bytes.extend_from_slice(key.as_bytes());
        push_u64(&mut bytes, 1);
        push_u32(&mut bytes, 0);
        push_u64(&mut bytes, 0);
    }
    assert_eq!(Kosha::new(&bytes).err(), Some(KoshaError::StorageUnavailable));
}

#[test]
fn repeated_key_fails_closed() {
    // a finished store merges homographs under one key: two entries with
    // the same key are not canonical
    let mut bytes = Vec::new();
    push_u64(&mut bytes, 2);
    for _ in 0..2 {
        push_u64(&mut bytes, 1);
        bytes.extend_from_slice(b"a");
        push_u64(&mut bytes, 1);
        push_u32(&mut bytes, 0);
        push_u64(&mut bytes, 0);
    }
    assert_eq!(Kosha::new(&bytes).err(), Some(KoshaError::StorageUnavailable));
}

#[test]
fn empty_group_fails_closed() {
    let mut bytes = Vec::new();
    push_u64(&mut bytes, 1);
    push_u64(&mut bytes, 1);
    bytes.extend_from_slice(b"a");
    push_u64(&mut bytes, 0);
    assert_eq!(Kosha::new(&bytes).err(), Some(KoshaError::StorageUnavailable));
}

#[test]
fn non_ascii_key_fails_closed() {
    let mut bytes = Vec::new();
    push_u64(&mut bytes, 1);
    push_u64(&mut bytes, 1);
    bytes.push(200);
    push_u64(&mut bytes, 1);
    push_u32(&mut bytes, 0);
    push_u64(&mut bytes, 0);
    assert_eq!(Kosha::new(&bytes).err(), Some(KoshaError::StorageUnavailable));
}

#[test]
fn loaded_records_keep_their_packed_form() {
    // the store returns records in the encoded shape it was given
    let mut bytes = Vec::new();
    push_u64(&mut bytes, 1);
    push_u64(&mut bytes, 2);
    bytes.extend_from_slice(b"ka");
    push_u64(&mut bytes, 1);
    push_u32(&mut bytes, 1 + 1048576);
    push_u64(&mut bytes, 2);
    bytes.extend_from_slice(b"ka");
    let kosha = Kosha::new(&bytes).expect("load");
    let records = kosha.get_all("ka");
    let expected = PackedPada { value: 1 + 1048576, text: "ka".to_string() };
    assert_eq!(records.len(), 1);
    assert_eq!(records[0], expected);
}
