//! Byte-level tests of the record codec and the checksum.

use crabedb::checksum::{xxhash32, XxHash32};
use crabedb::codec::{CompactionHint, Log};
use crabedb::error::Error;

fn encode_log(log: &Log) -> Vec<u8> {
    let mut out = Vec::new();
    log.write_bytes(&mut out);
    out
}

#[test]
fn xxhash_empty_input_known_digest() {
    // The reference digest of the empty input under seed 0.
    assert_eq!(xxhash32(&[]), 0x02cc_5d05);
}

#[test]
fn xxhash_is_deterministic_and_input_sensitive() {
    let a = xxhash32(b"hello world");
    let b = xxhash32(b"hello world");
    let c = xxhash32(b"hello worle");
    assert_eq!(a, b);
    assert_ne!(a, c);
}

#[test]
fn streaming_hasher_matches_one_shot() {
    let mut h = XxHash32::new();
    h.update(b"hel");
    h.update(b"lo ");
    h.update(b"world");
    assert_eq!(h.get(), xxhash32(b"hello world"));
}

#[test]
fn log_record_layout_is_exact() {
    let log = Log::new(7, b"key".to_vec(), b"value".to_vec()).unwrap();
    let bytes = encode_log(&log);
    // checksum(4) + seq(8) + key_len(2) + value_len(4) + key + value
    assert_eq!(bytes.len(), 18 + 3 + 5);
    assert_eq!(&bytes[4..12], &7u64.to_le_bytes());
    assert_eq!(&bytes[12..14], &3u16.to_le_bytes());
    assert_eq!(&bytes[14..18], &5u32.to_le_bytes());
    assert_eq!(&bytes[18..21], b"key");
    assert_eq!(&bytes[21..26], b"value");
    let sum = xxhash32(&bytes[4..]);
    assert_eq!(&bytes[0..4], &sum.to_le_bytes());
}

#[test]
fn tombstone_layout_uses_the_sentinel() {
    let log = Log::deleted(9, b"gone".to_vec());
    let bytes = encode_log(&log);
    assert_eq!(bytes.len(), 18 + 4);
    assert_eq!(&bytes[14..18], &0xffff_ffffu32.to_le_bytes());
}

#[test]
fn log_round_trip() {
    let log = Log::new(42, b"alpha".to_vec(), b"beta gamma".to_vec()).unwrap();
    let bytes = encode_log(&log);
    let back = Log::from_read(&bytes, 0).unwrap();
    assert_eq!(back.key, b"alpha".to_vec());
    assert_eq!(back.value, b"beta gamma".to_vec());
    assert_eq!(back.seq, 42);
    assert!(!back.deleted);
    assert_eq!(back.size(), bytes.len() as u64);
}

#[test]
fn tombstone_round_trip() {
    let log = Log::deleted(43, b"alpha".to_vec());
    let bytes = encode_log(&log);
    let back = Log::from_read(&bytes, 0).unwrap();
    assert_eq!(back.key, b"alpha".to_vec());
    assert!(back.deleted);
    assert_eq!(back.value.len(), 0);
}

#[test]
fn decode_at_offset() {
    let first = Log::new(1, b"a".to_vec(), b"1".to_vec()).unwrap();
    let second = Log::new(2, b"b".to_vec(), b"2".to_vec()).unwrap();
    let mut bytes = encode_log(&first);
    let off = bytes.len();
    let mut more = encode_log(&second);
    bytes.append(&mut more);
    let back = Log::from_read(&bytes, off).unwrap();
    assert_eq!(back.key, b"b".to_vec());
    assert_eq!(back.seq, 2);
}

#[test]
fn short_read_is_an_io_error() {
    let log = Log::new(1, b"key".to_vec(), b"value".to_vec()).unwrap();
    let bytes = encode_log(&log);
    for cut in [0usize, 4, 17, 20, bytes.len() - 1] {
        match Log::from_read(&bytes[..cut], 0) {
            Err(Error::Io(_)) => {},
            other => panic!("expected a short-read error, got {:?}", other),
        }
    }
}

#[test]
fn flipping_payload_bytes_fails_the_checksum() {
    let log = Log::new(5, b"crab".to_vec(), b"basket".to_vec()).unwrap();
    let bytes = encode_log(&log);
    // Flip the checksum field, the sequence number, the key and the value:
    // every such record must come back as a checksum mismatch.
    for i in (0..12).chain(18..bytes.len()) {
        let mut corrupt = bytes.clone();
        corrupt[i] ^= 0x40;
        match Log::from_read(&corrupt, 0) {
            Err(Error::InvalidChecksum { expected, found }) => {
                assert_ne!(expected, found);
            },
            other => panic!("byte {}: expected a checksum mismatch, got {:?}", i, other),
        }
    }
    // Flipping a length field must also fail, though the kind may differ
    // (the record may now run past the end of the buffer).
    for i in 12..18 {
        let mut corrupt = bytes.clone();
        corrupt[i] ^= 0x40;
        assert!(Log::from_read(&corrupt, 0).is_err(), "byte {}", i);
    }
}

#[test]
fn oversized_and_empty_keys_are_rejected() {
    match Log::new(1, Vec::new(), b"v".to_vec()) {
        Err(Error::InvalidKeySize(0)) => {},
        other => panic!("expected InvalidKeySize(0), got {:?}", other),
    }
    match Log::new(1, vec![0u8; 65536], b"v".to_vec()) {
        Err(Error::InvalidKeySize(65536)) => {},
        other => panic!("expected InvalidKeySize(65536), got {:?}", other),
    }
    assert!(Log::new(1, vec![0u8; 65535], Vec::new()).is_ok());
}

#[test]
fn hint_round_trip_and_log_size() {
    let log = Log::new(11, b"karl".to_vec(), b"value bytes".to_vec()).unwrap();
    let hint = CompactionHint::new(&log, 123);
    assert_eq!(hint.log_size(), log.size());
    let mut bytes = Vec::new();
    hint.write_bytes(&mut bytes);
    assert_eq!(bytes.len(), 22 + 4);
    let back = CompactionHint::from_read(&bytes, 0).unwrap();
    assert_eq!(back.key, b"karl".to_vec());
    assert_eq!(back.log_pos, 123);
    assert_eq!(back.seq, 11);
    assert_eq!(back.value_size, 11);
    assert!(!back.deleted);
}

#[test]
fn hint_of_tombstone_reads_back_deleted() {
    let log = Log::deleted(12, b"karl".to_vec());
    let hint = CompactionHint::from(log, 7);
    let mut bytes = Vec::new();
    hint.write_bytes(&mut bytes);
    let back = CompactionHint::from_read(&bytes, 0).unwrap();
    assert!(back.deleted);
    assert_eq!(back.value_size, 0);
    assert_eq!(back.log_pos, 7);
}
