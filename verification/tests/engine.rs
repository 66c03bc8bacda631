//! End-to-end tests of the engine: round trips, overwrites, removals,
//! rotation, and the error taxonomy.

use crabedb::crabe_db::CrabeDB;
use crabedb::error::Error;
use crabedb::options::{StorageOptions, SyncOptions};

fn open_empty(options: StorageOptions) -> CrabeDB {
    CrabeDB::load(Vec::new(), options).unwrap()
}

#[test]
fn basic_round_trip() {
    // Open an empty store, write, read, remove, read again.
    let mut db = open_empty(StorageOptions::new());
    db.set(b"hello", b"world").unwrap();
    assert_eq!(db.get(b"hello").unwrap(), Some(b"world".to_vec()));
    db.remove(b"hello").unwrap();
    assert_eq!(db.get(b"hello").unwrap(), None);
}

#[test]
fn get_of_an_unknown_key_is_none() {
    let db = open_empty(StorageOptions::new());
    assert_eq!(db.get(b"nothing").unwrap(), None);
}

#[test]
fn overwrite_returns_the_latest_value() {
    let mut db = open_empty(StorageOptions::new());
    db.set(b"k", b"one").unwrap();
    db.set(b"k", b"two").unwrap();
    db.set(b"k", b"three").unwrap();
    assert_eq!(db.get(b"k").unwrap(), Some(b"three".to_vec()));
}

#[test]
fn set_is_idempotent() {
    let mut db = open_empty(StorageOptions::new());
    db.set(b"k", b"v").unwrap();
    db.set(b"k", b"v").unwrap();
    assert_eq!(db.get(b"k").unwrap(), Some(b"v".to_vec()));
}

#[test]
fn last_write_wins_across_keys() {
    let mut db = open_empty(StorageOptions::new());
    db.set(b"a", b"1").unwrap();
    db.set(b"b", b"2").unwrap();
    db.set(b"a", b"3").unwrap();
    db.remove(b"b").unwrap();
    db.set(b"c", b"4").unwrap();
    assert_eq!(db.get(b"a").unwrap(), Some(b"3".to_vec()));
    assert_eq!(db.get(b"b").unwrap(), None);
    assert_eq!(db.get(b"c").unwrap(), Some(b"4".to_vec()));
}

#[test]
fn tombstone_holds_until_a_new_write() {
    let mut db = open_empty(StorageOptions::new());
    db.set(b"k", b"v").unwrap();
    db.remove(b"k").unwrap();
    db.set(b"other", b"x").unwrap();
    assert_eq!(db.get(b"k").unwrap(), None);
    db.set(b"k", b"back").unwrap();
    assert_eq!(db.get(b"k").unwrap(), Some(b"back".to_vec()));
}

#[test]
fn removing_an_absent_key_is_a_no_op() {
    let mut db = open_empty(StorageOptions::new());
    db.remove(b"ghost").unwrap();
    assert_eq!(db.get(b"ghost").unwrap(), None);
}

#[test]
fn keys_snapshot() {
    let mut db = open_empty(StorageOptions::new());
    db.set(b"a", b"1").unwrap();
    db.set(b"b", b"2").unwrap();
    db.set(b"c", b"3").unwrap();
    db.remove(b"b").unwrap();
    let mut keys = db.keys();
    keys.sort();
    assert_eq!(keys, vec![b"a".to_vec(), b"c".to_vec()]);
}

#[test]
fn oversized_keys_and_values_are_rejected() {
    let mut db = open_empty(StorageOptions::new());
    match db.set(b"", b"v") {
        Err(Error::InvalidKeySize(0)) => {},
        other => panic!("expected InvalidKeySize(0), got {:?}", other),
    }
    let big_key = vec![7u8; 70000];
    match db.set(&big_key, b"v") {
        Err(Error::InvalidKeySize(70000)) => {},
        other => panic!("expected InvalidKeySize(70000), got {:?}", other),
    }
    // The store is unchanged after a rejected write.
    assert_eq!(db.get(&big_key).unwrap(), None);
}

#[test]
fn rotation_spreads_records_over_files() {
    // A 512-byte rotation limit with 16-byte keys and 64-byte values forces
    // a new data file every few records.
    let mut options = StorageOptions::new();
    options.max_file_size(512).sync(SyncOptions::Never).compaction(false);
    let mut db = open_empty(options);
    let mut keys = Vec::new();
    for i in 0..40u32 {
        let key = format!("key-{:012}", i).into_bytes();
        assert_eq!(key.len(), 16);
        let value = vec![b'a' + (i % 26) as u8; 64];
        db.set(&key, &value).unwrap();
        keys.push((key, value));
    }
    let files = db.export_files();
    assert!(files.len() >= 2, "expected at least two data files, got {}", files.len());
    for (key, value) in keys {
        assert_eq!(db.get(&key).unwrap(), Some(value));
    }
}

#[test]
fn empty_values_are_stored() {
    let mut db = open_empty(StorageOptions::new());
    db.set(b"empty", b"").unwrap();
    assert_eq!(db.get(b"empty").unwrap(), Some(Vec::new()));
}

#[test]
fn options_builder_chains() {
    let mut options = StorageOptions::new();
    options
        .sync(SyncOptions::Always)
        .max_file_size(1024)
        .file_chunk_queue_size(16)
        .compaction(false)
        .create(false)
        .compaction_check_frequency(60)
        .compaction_window(1, 2)
        .fragmentation_trigger(700)
        .dead_bytes_trigger(1000)
        .fragmentation_threshold(300)
        .dead_bytes_threshold(500)
        .small_file_threshold(128);
    assert_eq!(options.sync, SyncOptions::Always);
    assert_eq!(options.max_file_size, 1024);
    assert_eq!(options.compaction_window, (1, 2));
    assert_eq!(options.fragmentation_trigger, 700);
    assert_eq!(options.small_file_threshold, 128);
}
